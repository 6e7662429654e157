use core::marker::PhantomData;
use vstd::prelude::*;

use crate::functor::{Const, Identity};
use crate::traversal::{accepts_on, called_on, through, Traversal};
use crate::util::{Compose, Lift};

verus! {

/// `x` is what the constant functor that `k` gives carries, for some argument
/// whose model is `part`.
pub open spec fn const_through<B: DeepView, X, K: Fn(B) -> Const<X, B>>(
    k: K,
    part: B::V,
    x: X,
) -> bool {
    exists|c: Const<X, B>| called_on(k, part, c) && c.0 == x
}

/// `r` is `set` of the model of what `k` gives, for some argument whose model is `part`.
pub open spec fn set_through<B: DeepView, AV, K: Fn(B) -> Identity<B>>(
    k: K,
    part: B::V,
    set: spec_fn(B::V) -> AV,
    r: AV,
) -> bool {
    exists|c: Identity<B>| called_on(k, part, c) && r == set(c.0.deep_view())
}

/// `r` is `set` of the model of what `f` returns, for some argument whose model is `part`.
pub open spec fn replaced_through<B: DeepView, AV, F: Fn(B) -> B>(
    f: F,
    part: B::V,
    set: spec_fn(B::V) -> AV,
    r: AV,
) -> bool {
    exists|b: B, c: B| b.deep_view() == part && call_ensures(f, (b,), c) && r == set(c.deep_view())
}

/// A lens focuses on exactly one `B` part of an `A`.
///
/// Its meaning is given by `view_get` and `view_set` over models, which obey
/// the three lens laws. The executable methods run the lens in the constant
/// functor (reading the part) and in the identity functor (replacing it).
pub trait Lens: Sized {
    type A: DeepView;

    type B: DeepView;

    spec fn view_get(&self, a: <Self::A as DeepView>::V) -> <Self::B as DeepView>::V;

    spec fn view_set(
        &self,
        a: <Self::A as DeepView>::V,
        b: <Self::B as DeepView>::V,
    ) -> <Self::A as DeepView>::V;

    /// You get back what you set.
    proof fn lemma_get_set(&self, a: <Self::A as DeepView>::V, b: <Self::B as DeepView>::V)
        ensures
            self.view_get(self.view_set(a, b)) == b,
    ;

    /// Setting what is there changes nothing.
    proof fn lemma_set_get(&self, a: <Self::A as DeepView>::V)
        ensures
            self.view_set(a, self.view_get(a)) == a,
    ;

    /// Setting twice is setting the second value.
    proof fn lemma_set_set(
        &self,
        a: <Self::A as DeepView>::V,
        b1: <Self::B as DeepView>::V,
        b2: <Self::B as DeepView>::V,
    )
        ensures
            self.view_set(self.view_set(a, b1), b2) == self.view_set(a, b2),
    ;

    /// Runs the lens in the constant functor: the result carries what `k`
    /// gives for the part.
    fn f_const<X, K: Fn(Self::B) -> Const<X, Self::B>>(&self, k: &K, a: Self::A) -> (r: Const<
        X,
        Self::A,
    >)
        requires
            accepts_on::<Self::B, Const<X, Self::B>, K>(*k, seq![self.view_get(a.deep_view())]),
        ensures
            const_through(*k, self.view_get(a.deep_view()), r.0),
    ;

    /// Runs the lens in the identity functor: the part is replaced by what
    /// `k` gives for it.
    fn f_identity<K: Fn(Self::B) -> Identity<Self::B>>(&self, k: &K, a: Self::A) -> (r: Identity<
        Self::A,
    >)
        requires
            accepts_on::<Self::B, Identity<Self::B>, K>(*k, seq![self.view_get(a.deep_view())]),
        ensures
            set_through(
                *k,
                self.view_get(a.deep_view()),
                |b: <Self::B as DeepView>::V| self.view_set(a.deep_view(), b),
                r.0.deep_view(),
            ),
    ;
}

/// Reading, updating and composing lenses.
pub trait LensExt: Lens {
    /// The part the lens focuses on.
    fn getter(&self, a: Self::A) -> (r: Self::B)
        ensures
            r.deep_view() == self.view_get(a.deep_view()),
    {
        let k = |b: Self::B| -> (c: Const<Self::B, Self::B>)
            ensures
                c.0 == b,
            { Const(b, PhantomData) };
        self.f_const(&k, a).0
    }

    /// `a` with its part replaced by what `f` returns for it.
    fn over<F: Fn(Self::B) -> Self::B>(&self, a: Self::A, f: F) -> (r: Self::A)
        requires
            accepts_on::<Self::B, Self::B, F>(f, seq![self.view_get(a.deep_view())]),
        ensures
            replaced_through(
                f,
                self.view_get(a.deep_view()),
                |b: <Self::B as DeepView>::V| self.view_set(a.deep_view(), b),
                r.deep_view(),
            ),
    {
        let fr = &f;
        let k = |b: Self::B| -> (c: Identity<Self::B>)
            requires
                call_requires(fr, (b,)),
            ensures
                call_ensures(*fr, (b,), c.0),
            { Identity(fr(b)) };
        self.f_identity(&k, a).0
    }

    /// This lens followed by `other`.
    fn and<O: Lens<A = Self::B>>(self, other: O) -> (r: Compose<Self, O>)
        ensures
            r.0 == self,
            r.1 == other,
    {
        Compose(self, other)
    }

    /// This lens followed by the traversal `other`.
    fn all<O: Traversal<A = Self::B>>(self, other: O) -> (r: Compose<Lift<Self>, O>)
        ensures
            r.0.0 == self,
            r.1 == other,
    {
        Compose(Lift(self), other)
    }
}

impl<L: Lens> LensExt for L {

}

/// The lens whose part is the whole.
pub struct IdentityLens<T>(pub PhantomData<T>);

impl<T: DeepView> Lens for IdentityLens<T> {
    type A = T;

    type B = T;

    open spec fn view_get(&self, a: T::V) -> T::V {
        a
    }

    open spec fn view_set(&self, a: T::V, b: T::V) -> T::V {
        b
    }

    proof fn lemma_get_set(&self, a: T::V, b: T::V) {
    }

    proof fn lemma_set_get(&self, a: T::V) {
    }

    proof fn lemma_set_set(&self, a: T::V, b1: T::V, b2: T::V) {
    }

    fn f_const<X, K: Fn(T) -> Const<X, T>>(&self, k: &K, a: T) -> (r: Const<X, T>) {
        let ghost ag = a;
        assert(seq![a.deep_view()][0] == a.deep_view());
        assert(seq![a.deep_view()].contains(a.deep_view()));
        assert(call_requires(*k, (a,)));
        let c = k(a);
        assert(called_on(*k, ag.deep_view(), c));
        let r = Const(c.0, PhantomData);
        r
    }

    fn f_identity<K: Fn(T) -> Identity<T>>(&self, k: &K, a: T) -> (r: Identity<T>) {
        let ghost ag = a;
        assert(seq![a.deep_view()][0] == a.deep_view());
        assert(seq![a.deep_view()].contains(a.deep_view()));
        assert(call_requires(*k, (a,)));
        let c = k(a);
        assert(called_on(*k, ag.deep_view(), c));
        c
    }
}

impl<L1: Lens, L2: Lens<A = L1::B>> Lens for Compose<L1, L2> {
    type A = L1::A;

    type B = L2::B;

    open spec fn view_get(&self, a: <L1::A as DeepView>::V) -> <L2::B as DeepView>::V {
        self.1.view_get(self.0.view_get(a))
    }

    open spec fn view_set(
        &self,
        a: <L1::A as DeepView>::V,
        b: <L2::B as DeepView>::V,
    ) -> <L1::A as DeepView>::V {
        self.0.view_set(a, self.1.view_set(self.0.view_get(a), b))
    }

    proof fn lemma_get_set(&self, a: <L1::A as DeepView>::V, b: <L2::B as DeepView>::V) {
        self.0.lemma_get_set(a, self.1.view_set(self.0.view_get(a), b));
        self.1.lemma_get_set(self.0.view_get(a), b);
    }

    proof fn lemma_set_get(&self, a: <L1::A as DeepView>::V) {
        self.1.lemma_set_get(self.0.view_get(a));
        self.0.lemma_set_get(a);
    }

    proof fn lemma_set_set(
        &self,
        a: <L1::A as DeepView>::V,
        b1: <L2::B as DeepView>::V,
        b2: <L2::B as DeepView>::V,
    ) {
        let g = self.0.view_get(a);
        let inner1 = self.1.view_set(g, b1);
        self.0.lemma_get_set(a, inner1);
        self.1.lemma_set_set(g, b1, b2);
        self.0.lemma_set_set(a, inner1, self.1.view_set(inner1, b2));
    }

    fn f_const<X, K: Fn(L2::B) -> Const<X, L2::B>>(&self, k: &K, a: L1::A) -> (r: Const<X, L1::A>) {
        let inner = |b1: L1::B| -> (c: Const<X, L1::B>)
            requires
                accepts_on::<L2::B, Const<X, L2::B>, &K>(k, seq![self.1.view_get(b1.deep_view())]),
            ensures
                const_through(*k, self.1.view_get(b1.deep_view()), c.0),
            { self.1.f_const(k, b1) };
        self.0.f_const(&inner, a)
    }

    fn f_identity<K: Fn(L2::B) -> Identity<L2::B>>(&self, k: &K, a: L1::A) -> (r: Identity<L1::A>) {
        let inner = |b1: L1::B| -> (c: Identity<L1::B>)
            requires
                accepts_on::<L2::B, Identity<L2::B>, &K>(k, seq![self.1.view_get(b1.deep_view())]),
            ensures
                set_through(
                    *k,
                    self.1.view_get(b1.deep_view()),
                    |b: <L2::B as DeepView>::V| self.1.view_set(b1.deep_view(), b),
                    c.0.deep_view(),
                ),
            { self.1.f_identity(k, b1) };
        self.0.f_identity(&inner, a)
    }
}

} // verus!

verus! {

/// Law (a read gives back what an update wrote): after `over` with `f`, the
/// part is what `f` returned for the part that was there.
pub proof fn lemma_lens_over_then_get<L: Lens, F: Fn(L::B) -> L::B>(
    l: &L,
    a: <L::A as DeepView>::V,
    f: F,
    r: <L::A as DeepView>::V,
)
    requires
        replaced_through(f, l.view_get(a), |b: <L::B as DeepView>::V| l.view_set(a, b), r),
    ensures
        through(f, l.view_get(a), l.view_get(r)),
{
    let (b, c) = choose|b: L::B, c: L::B|
        b.deep_view() == l.view_get(a) && call_ensures(f, (b,), c) && r == l.view_set(
            a,
            c.deep_view(),
        );
    l.lemma_get_set(a, c.deep_view());
}

/// Law: a composed lens reads through both lenses, outer first, and updating
/// its part with `g` is updating the outer part with `g` through the inner lens.
pub proof fn lemma_lens_compose_nested<L1: Lens, L2: Lens<A = L1::B>>(
    l: &Compose<L1, L2>,
    a: <L1::A as DeepView>::V,
    g: spec_fn(<L2::B as DeepView>::V) -> <L2::B as DeepView>::V,
)
    ensures
        l.view_get(a) == l.1.view_get(l.0.view_get(a)),
        l.view_set(a, g(l.view_get(a))) == l.0.view_set(
            a,
            l.1.view_set(l.0.view_get(a), g(l.1.view_get(l.0.view_get(a)))),
        ),
{
}

/// `f` gives one result model per argument model: the one `g` gives.
pub open spec fn determined_by<B: DeepView, F: Fn(B) -> B>(f: F, g: spec_fn(B::V) -> B::V) -> bool {
    forall|b: B, c: B| #[trigger] call_ensures(f, (b,), c) ==> c.deep_view() == g(b.deep_view())
}

/// Law: `over` through a composed lens is `over` through the outer lens of
/// `over` through the inner one. `r1` is a result of `Compose(l1, l2).over(a, f)`,
/// `r2` one of `l1.over(a, h)` where `h` is any function whose results are
/// results of `l2.over(b, f)`; for an `f` that gives one result model per
/// argument model (`g`), both are the update of the part by `g`.
pub proof fn lemma_lens_compose_over<
    L1: Lens,
    L2: Lens<A = L1::B>,
    F: Fn(L2::B) -> L2::B,
    H: Fn(L1::B) -> L1::B,
>(
    l: &Compose<L1, L2>,
    a: <L1::A as DeepView>::V,
    f: F,
    h: H,
    g: spec_fn(<L2::B as DeepView>::V) -> <L2::B as DeepView>::V,
    r1: <L1::A as DeepView>::V,
    r2: <L1::A as DeepView>::V,
)
    requires
        determined_by(f, g),
        forall|b: L1::B, c: L1::B| #[trigger]
            call_ensures(h, (b,), c) ==> replaced_through(
                f,
                l.1.view_get(b.deep_view()),
                |v: <L2::B as DeepView>::V| l.1.view_set(b.deep_view(), v),
                c.deep_view(),
            ),
        replaced_through(f, l.view_get(a), |v: <L2::B as DeepView>::V| l.view_set(a, v), r1),
        replaced_through(h, l.0.view_get(a), |v: <L1::B as DeepView>::V| l.0.view_set(a, v), r2),
    ensures
        r1 == l.view_set(a, g(l.view_get(a))),
        r1 == r2,
{
    let (b1, c1) = choose|b1: L2::B, c1: L2::B|
        b1.deep_view() == l.view_get(a) && call_ensures(f, (b1,), c1) && r1 == l.view_set(
            a,
            c1.deep_view(),
        );
    assert(c1.deep_view() == g(b1.deep_view()));
    let (b2, c2) = choose|b2: L1::B, c2: L1::B|
        b2.deep_view() == l.0.view_get(a) && call_ensures(h, (b2,), c2) && r2 == l.0.view_set(
            a,
            c2.deep_view(),
        );
    let x = l.0.view_get(a);
    let (b3, c3) = choose|b3: L2::B, c3: L2::B|
        b3.deep_view() == l.1.view_get(x) && call_ensures(f, (b3,), c3) && c2.deep_view()
            == l.1.view_set(x, c3.deep_view());
    assert(c3.deep_view() == g(b3.deep_view()));
}

/// Law: composing lenses is associative (the two groupings read and write alike).
pub proof fn lemma_compose_assoc<L1: Lens, L2: Lens<A = L1::B>, L3: Lens<A = L2::B>>(
    l1: L1,
    l2: L2,
    l3: L3,
    a: <L1::A as DeepView>::V,
    b: <L3::B as DeepView>::V,
)
    ensures
        Compose(Compose(l1, l2), l3).view_get(a) == Compose(l1, Compose(l2, l3)).view_get(a),
        Compose(Compose(l1, l2), l3).view_set(a, b) == Compose(l1, Compose(l2, l3)).view_set(a, b),
{
}

} // verus!

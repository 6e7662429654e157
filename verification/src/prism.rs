use core::marker::PhantomData;
use vstd::prelude::*;

use crate::functor::{Applicative, Const, Identity, Leftmost, Monoid};
use crate::lens::Lens;
use crate::traversal::{
    all_through, applied, called_on, concat_all, const_values, identity_models, mapped, mconcat,
    refilled_through, through, Traversal,
};
use crate::util::{Compose, Lift};

verus! {

/// The first element of a sequence, if there is one.
pub open spec fn first_of<T>(s: Seq<T>) -> Option<T> {
    if s.len() == 0 {
        None
    } else {
        Some(s[0])
    }
}

/// A prism is a traversal that focuses on at most one part.
pub trait Prism: Traversal {
    /// There is never more than one part.
    proof fn lemma_at_most_one(&self, a: <Self::A as DeepView>::V)
        ensures
            self.foci(a).len() <= 1,
    ;
}

/// Folding `Found` values in the leftmost monoid keeps the first one.
proof fn lemma_mconcat_leftmost<B>(vs: Seq<Leftmost<B>>)
    requires
        forall|i: int| 0 <= i < vs.len() ==> (#[trigger] vs[i]) is Found,
    ensures
        mconcat::<Leftmost<B>>(vs) == (if vs.len() == 0 {
            Leftmost::Nothing
        } else {
            vs[0]
        }),
    decreases vs.len(),
{
    if vs.len() > 0 {
        let init = vs.drop_last();
        assert forall|i: int| 0 <= i < init.len() implies (#[trigger] init[i]) is Found by {
            assert(init[i] == vs[i]);
        }
        lemma_mconcat_leftmost::<B>(init);
        if init.len() > 0 {
            assert(init[0] == vs[0]);
        }
        assert(vs.last() == vs[vs.len() - 1]);
    }
}

/// Reading and composing prisms.
pub trait PrismExt: Prism {
    /// The first part, if there is one (for a prism, the only one).
    fn t_to_opt(&self, a: Self::A) -> (r: Option<Self::B>)
        ensures
            r.deep_view() == first_of(self.foci(a.deep_view())),
    {
        let k = |b: Self::B| -> (c: Const<Leftmost<Self::B>, Self::B>)
            ensures
                c.0 == Leftmost::Found(b),
            { Const(Leftmost::Found(b), PhantomData) };
        let ghost ag = a.deep_view();
        let r = self.f_const(&k, a);
        proof {
            let parts = self.foci(ag);
            let cs = choose|cs: Seq<Const<Leftmost<Self::B>, Self::B>>|
                applied(k, parts, cs) && r.0@ == mconcat::<Leftmost<Self::B>>(const_values(cs));
            assert forall|i: int| 0 <= i < cs.len() implies (#[trigger] const_values(cs)[i]) is Found
                && const_values(cs)[i]->Found_0.deep_view() == parts[i] by {
                assert(called_on(k, parts[i], cs[i]));
            }
            lemma_mconcat_leftmost::<Self::B>(const_values(cs));
        }
        r.0.to_opt()
    }

    /// This prism followed by the lens `other`.
    fn and<O: Lens<A = Self::B>>(self, other: O) -> (r: Compose<Self, Lift<O>>)
        ensures
            r.0 == self,
            r.1.0 == other,
    {
        Compose(self, Lift(other))
    }

    /// This prism followed by the prism `other`.
    fn and_if<O: Prism<A = Self::B>>(self, other: O) -> (r: Compose<Self, O>)
        ensures
            r.0 == self,
            r.1 == other,
    {
        Compose(self, other)
    }

    /// This prism followed by the prism `other`, as a traversal.
    fn all<O: Prism<A = Self::B>>(self, other: O) -> (r: Compose<Self, O>)
        ensures
            r.0 == self,
            r.1 == other,
    {
        Compose(self, other)
    }
}

impl<T: Prism> PrismExt for T {

}

proof fn lemma_concat_all_small<T>(ss: Seq<Seq<T>>)
    requires
        ss.len() <= 1,
        forall|i: int| 0 <= i < ss.len() ==> (#[trigger] ss[i]).len() <= 1,
    ensures
        concat_all(ss).len() <= 1,
{
    if ss.len() == 1 {
        assert(ss.drop_last() =~= Seq::<Seq<T>>::empty());
        assert(concat_all(ss.drop_last()) == Seq::<T>::empty());
        assert(ss.last() == ss[0]);
        assert(concat_all(ss) == Seq::<T>::empty() + ss[0]);
    } else {
        assert(concat_all(ss) == Seq::<T>::empty());
    }
}

impl<T1: Prism, T2: Lens<A = T1::B>> Prism for Compose<T1, Lift<T2>> {
    proof fn lemma_at_most_one(&self, a: <T1::A as DeepView>::V) {
        self.0.lemma_at_most_one(a);
        let ps = self.0.foci(a).map_values(|b: <T1::B as DeepView>::V| self.1.foci(b));
        lemma_concat_all_small(ps);
    }
}

impl<T1: Prism, T2: Prism<A = T1::B>> Prism for Compose<T1, T2> {
    proof fn lemma_at_most_one(&self, a: <T1::A as DeepView>::V) {
        self.0.lemma_at_most_one(a);
        let ps = self.0.foci(a).map_values(|b: <T1::B as DeepView>::V| self.1.foci(b));
        assert forall|i: int| 0 <= i < ps.len() implies (#[trigger] ps[i]).len() <= 1 by {
            self.1.lemma_at_most_one(self.0.foci(a)[i]);
        }
        lemma_concat_all_small(ps);
    }
}

/// Law: the part of a composition of prisms is the inner prism's part of the
/// outer prism's part, when both are there (`t_to_opt` of the composition is
/// `t_to_opt` of the outer prism, then of the inner one).
pub proof fn lemma_compose_first<T1: Prism, T2: Prism<A = T1::B>>(
    p: &Compose<T1, T2>,
    a: <T1::A as DeepView>::V,
)
    ensures
        first_of(p.foci(a)) == match first_of(p.0.foci(a)) {
            Some(b) => first_of(p.1.foci(b)),
            None => None,
        },
{
    let outer = p.0.foci(a);
    let ps = outer.map_values(|b: <T1::B as DeepView>::V| p.1.foci(b));
    p.0.lemma_at_most_one(a);
    if outer.len() == 1 {
        assert(ps.drop_last() =~= Seq::<Seq<<T2::B as DeepView>::V>>::empty());
        assert(concat_all(ps.drop_last()) == Seq::<<T2::B as DeepView>::V>::empty());
        assert(ps.last() == p.1.foci(outer[0]));
        assert(concat_all(ps) =~= p.1.foci(outer[0]));
    } else {
        assert(ps =~= Seq::<Seq<<T2::B as DeepView>::V>>::empty());
        assert(concat_all(ps) == Seq::<<T2::B as DeepView>::V>::empty());
    }
}

/// A lens seen as a prism (its one part is always there).
pub struct LiftPrism<P>(pub P);

impl<L: Lens> Traversal for LiftPrism<L> {
    type A = L::A;

    type B = L::B;

    open spec fn foci(&self, a: <L::A as DeepView>::V) -> Seq<<L::B as DeepView>::V> {
        seq![self.0.view_get(a)]
    }

    open spec fn refill(
        &self,
        a: <L::A as DeepView>::V,
        bs: Seq<<L::B as DeepView>::V>,
    ) -> <L::A as DeepView>::V {
        self.0.view_set(a, bs[0])
    }

    proof fn lemma_foci_refill(&self, a: <L::A as DeepView>::V, bs: Seq<<L::B as DeepView>::V>) {
        self.0.lemma_get_set(a, bs[0]);
        assert(bs =~= seq![bs[0]]);
    }

    fn f_const<M: Monoid, K: Fn(L::B) -> Const<M, L::B>>(&self, k: &K, a: L::A) -> (r: Const<
        M,
        L::A,
    >) {
        let ghost ag = a.deep_view();
        let r = self.0.f_const(k, a);
        proof {
            let part = self.0.view_get(ag);
            let c = choose|c: Const<M, L::B>| called_on(*k, part, c) && c.0 == r.0;
            let cs = seq![c];
            assert(applied(*k, seq![part], cs));
            M::lemma_zero_left(c.0@);
            assert(const_values(cs).drop_last() =~= Seq::empty());
            assert(const_values(cs).last() == c.0@);
            assert(mconcat::<M>(const_values(cs).drop_last()) == M::spec_zero());
            assert(mconcat::<M>(const_values(cs)) == r.0@);
        }
        r
    }

    fn f_identity<K: Fn(L::B) -> Identity<L::B>>(&self, k: &K, a: L::A) -> (r: Identity<L::A>) {
        let ghost ag = a.deep_view();
        let r = self.0.f_identity(k, a);
        proof {
            let part = self.0.view_get(ag);
            let c = choose|c: Identity<L::B>|
                called_on(*k, part, c) && r.0.deep_view() == self.0.view_set(ag, c.0.deep_view());
            let cs = seq![c];
            assert(applied(*k, seq![part], cs));
            assert(identity_models(cs) =~= seq![c.0.deep_view()]);
            assert(mapped(*k, seq![part], identity_models(cs)));
        }
        r
    }
}

impl<L: Lens> Prism for LiftPrism<L> {
    proof fn lemma_at_most_one(&self, a: <L::A as DeepView>::V) {
    }
}

/// The prism onto the element at position `idx` of a vector, when there is one.
///
/// Updating through it replaces that element in place.
pub struct VecIdx<X> {
    idx: usize,
    vec_value_type: PhantomData<X>,
}

impl<X> VecIdx<X> {
    /// The position the prism looks at.
    pub closed spec fn position(&self) -> usize {
        self.idx
    }
}

/// The prism onto the element at `position` of a vector.
pub fn idx<X>(position: usize) -> (r: VecIdx<X>)
    ensures
        r.position() == position,
{
    VecIdx { idx: position, vec_value_type: PhantomData }
}

impl<X: DeepView> Traversal for VecIdx<X> {
    type A = Vec<X>;

    type B = X;

    open spec fn foci(&self, a: Seq<X::V>) -> Seq<X::V> {
        if self.position() < a.len() {
            seq![a[self.position() as int]]
        } else {
            Seq::empty()
        }
    }

    open spec fn refill(&self, a: Seq<X::V>, bs: Seq<X::V>) -> Seq<X::V> {
        if self.position() < a.len() {
            a.update(self.position() as int, bs[0])
        } else {
            a
        }
    }

    proof fn lemma_foci_refill(&self, a: Seq<X::V>, bs: Seq<X::V>) {
        if self.position() < a.len() {
            assert(bs =~= seq![bs[0]]);
        } else {
            assert(bs =~= Seq::<X::V>::empty());
        }
    }

    fn f_const<M: Monoid, K: Fn(X) -> Const<M, X>>(&self, k: &K, a: Vec<X>) -> (r: Const<
        M,
        Vec<X>,
    >) {
        let ghost ag = a.deep_view();
        if self.idx < a.len() {
            let mut rest = a;
            let item = rest.remove(self.idx);
            assert(item.deep_view() == ag[self.idx as int]);
            assert(self.foci(ag)[0] == item.deep_view());
            assert(self.foci(ag).contains(item.deep_view()));
            let c = k(item);
            proof {
                assert(item.deep_view() == ag[self.idx as int]);
                assert(called_on(*k, ag[self.idx as int], c));
                let cs = seq![c];
                assert(applied(*k, self.foci(ag), cs));
                M::lemma_zero_left(c.0@);
                assert(const_values(cs).drop_last() =~= Seq::empty());
                assert(const_values(cs).last() == c.0@);
                assert(mconcat::<M>(const_values(cs).drop_last()) == M::spec_zero());
            }
            Const(c.0, PhantomData)
        } else {
            let r: Const<M, Vec<X>> = Const::pure(a);
            proof {
                let cs = Seq::<Const<M, X>>::empty();
                assert(applied(*k, self.foci(ag), cs));
                assert(const_values(cs) =~= Seq::empty());
            }
            r
        }
    }

    fn f_identity<K: Fn(X) -> Identity<X>>(&self, k: &K, a: Vec<X>) -> (r: Identity<Vec<X>>) {
        let ghost ag = a.deep_view();
        let mut vec = a;
        if self.idx < vec.len() {
            let item = vec.remove(self.idx);
            assert(item.deep_view() == ag[self.idx as int]);
            assert(self.foci(ag)[0] == item.deep_view());
            assert(self.foci(ag).contains(item.deep_view()));
            let c = k(item);
            let ghost cg = c;
            vec.insert(self.idx, c.0);
            proof {
                assert(item.deep_view() == ag[self.idx as int]);
                assert(called_on(*k, ag[self.idx as int], cg));
                let cs = seq![cg];
                assert(applied(*k, self.foci(ag), cs));
                assert(identity_models(cs) =~= seq![cg.0.deep_view()]);
                assert(vec.deep_view() =~= ag.update(self.idx as int, cg.0.deep_view()));
                assert(mapped(*k, self.foci(ag), identity_models(cs)));
            }
            Identity(vec)
        } else {
            proof {
                let cs = Seq::<Identity<X>>::empty();
                assert(applied(*k, self.foci(ag), cs));
                assert(identity_models(cs) =~= Seq::empty());
                assert(mapped(*k, self.foci(ag), identity_models(cs)));
            }
            Identity::pure(vec)
        }
    }
}

impl<X: DeepView> Prism for VecIdx<X> {
    proof fn lemma_at_most_one(&self, a: Seq<X::V>) {
    }
}

} // verus!

verus! {

/// Law (positions): the position prism finds the element at its position, if
/// the vector is that long, and nothing otherwise; putting a part back
/// replaces exactly that element.
pub proof fn law_idx_selects_position<X: DeepView>(t: &VecIdx<X>, s: Seq<X::V>, b: X::V)
    ensures
        t.position() < s.len() ==> t.foci(s) == seq![s[t.position() as int]] && first_of(
            t.foci(s),
        ) == Some(s[t.position() as int]) && t.refill(s, seq![b]) == s.update(
            t.position() as int,
            b,
        ),
        t.position() >= s.len() ==> t.foci(s).len() == 0 && first_of(t.foci(s)) is None
            && t.refill(s, Seq::empty()) == s,
{
}

/// Law (positions): a result of `over` through the position prism has the
/// same length as the vector, what `f` returned for the element at the
/// position stands there, and every other element is unchanged; a vector
/// too short comes back unchanged.
pub proof fn law_idx_over<X: DeepView, F: Fn(X) -> X>(
    t: &VecIdx<X>,
    s: Seq<X::V>,
    f: F,
    r: Seq<X::V>,
)
    requires
        refilled_through(f, t.foci(s), |bs: Seq<X::V>| t.refill(s, bs), r),
    ensures
        t.position() < s.len() ==> r.len() == s.len() && through(
            f,
            s[t.position() as int],
            r[t.position() as int],
        ) && forall|j: int| 0 <= j < s.len() && j != t.position() ==> r[j] == s[j],
        t.position() >= s.len() ==> r == s,
{
    let outs = choose|outs: Seq<X::V>| all_through(f, t.foci(s), outs) && r == t.refill(s, outs);
    if t.position() < s.len() {
        assert(through(f, t.foci(s)[0], outs[0]));
    } else {
        assert(outs =~= Seq::<X::V>::empty());
    }
}

} // verus!

use core::marker::PhantomData;
use vstd::prelude::*;

use crate::functor::{Applicative, Apply, Const, Functor, Identity, Monoid};
use crate::lens::{determined_by, Lens};
use crate::util::{Compose, Lift};

verus! {

/// `k` may be called on every value whose model is one of `parts`.
pub open spec fn accepts_on<B: DeepView, R, K: Fn(B) -> R>(k: K, parts: Seq<B::V>) -> bool {
    forall|b: B| parts.contains(b.deep_view()) ==> #[trigger] call_requires(k, (b,))
}

/// `r` is a result of calling `k` on some value whose model is `v`.
pub open spec fn called_on<B: DeepView, R, K: Fn(B) -> R>(k: K, v: B::V, r: R) -> bool {
    exists|b: B| b.deep_view() == v && #[trigger] call_ensures(k, (b,), r)
}

/// `outs[i]` is a result of calling `k` on a value whose model is `ins[i]`, for every `i`.
pub open spec fn applied<B: DeepView, R, K: Fn(B) -> R>(
    k: K,
    ins: Seq<B::V>,
    outs: Seq<R>,
) -> bool {
    &&& outs.len() == ins.len()
    &&& forall|i: int| 0 <= i < ins.len() ==> #[trigger] called_on::<B, R, K>(k, ins[i], outs[i])
}

/// Left fold of a sequence of monoid values, starting from `zero`.
pub open spec fn mconcat<M: Monoid>(ms: Seq<M::V>) -> M::V
    decreases ms.len(),
{
    if ms.len() == 0 {
        M::spec_zero()
    } else {
        M::spec_concat(mconcat::<M>(ms.drop_last()), ms.last())
    }
}

/// The monoid values carried by a sequence of constant-functor values.
pub open spec fn const_values<M: View, B>(cs: Seq<Const<M, B>>) -> Seq<M::V> {
    cs.map_values(|c: Const<M, B>| c.0@)
}

/// The models of the values carried by a sequence of identity-functor values.
pub open spec fn identity_models<B: DeepView>(cs: Seq<Identity<B>>) -> Seq<B::V> {
    cs.map_values(|c: Identity<B>| c.0.deep_view())
}

/// `m` is the monoid combination, in order, of what `k` gives for each of `parts`.
pub open spec fn folded<B: DeepView, M: Monoid, K: Fn(B) -> Const<M, B>>(
    k: K,
    parts: Seq<B::V>,
    m: M::V,
) -> bool {
    exists|cs: Seq<Const<M, B>>| applied(k, parts, cs) && m == mconcat::<M>(const_values(cs))
}

/// `outs` are models of what `k` gives for each of `parts`, in order.
pub open spec fn mapped<B: DeepView, K: Fn(B) -> Identity<B>>(
    k: K,
    parts: Seq<B::V>,
    outs: Seq<B::V>,
) -> bool {
    exists|cs: Seq<Identity<B>>| applied(k, parts, cs) && outs == identity_models(cs)
}

/// `r` is what `refill` gives for the models of what `k` gives for each of `parts`.
pub open spec fn updated<B: DeepView, AV, K: Fn(B) -> Identity<B>>(
    k: K,
    parts: Seq<B::V>,
    refill: spec_fn(Seq<B::V>) -> AV,
    r: AV,
) -> bool {
    exists|outs: Seq<B::V>| mapped(k, parts, outs) && r == refill(outs)
}

/// `out` is the model of what `f` returns for some argument whose model is `part`.
pub open spec fn through<B: DeepView, F: Fn(B) -> B>(f: F, part: B::V, out: B::V) -> bool {
    exists|b: B, c: B| b.deep_view() == part && call_ensures(f, (b,), c) && c.deep_view() == out
}

/// `outs[i]` is the model of what `f` returns for `parts[i]`, for every `i`.
pub open spec fn all_through<B: DeepView, F: Fn(B) -> B>(
    f: F,
    parts: Seq<B::V>,
    outs: Seq<B::V>,
) -> bool {
    &&& outs.len() == parts.len()
    &&& forall|i: int| 0 <= i < parts.len() ==> #[trigger] through(f, parts[i], outs[i])
}

/// `r` is what `refill` gives for the models of what `f` returns for each of `parts`.
pub open spec fn refilled_through<B: DeepView, AV, F: Fn(B) -> B>(
    f: F,
    parts: Seq<B::V>,
    refill: spec_fn(Seq<B::V>) -> AV,
    r: AV,
) -> bool {
    exists|outs: Seq<B::V>| all_through(f, parts, outs) && r == refill(outs)
}

/// A traversal focuses on zero or more `B` parts of an `A`, in order.
///
/// Its meaning is given by two spec functions over models: `foci` lists the
/// parts, and `refill` puts a sequence of (as many) new parts back. The two
/// executable methods are the traversal run in the constant functor over a
/// monoid (a fold over the parts) and in the identity functor (an update of
/// the parts).
pub trait Traversal: Sized {
    type A: DeepView;

    type B: DeepView;

    spec fn foci(&self, a: <Self::A as DeepView>::V) -> Seq<<Self::B as DeepView>::V>;

    spec fn refill(
        &self,
        a: <Self::A as DeepView>::V,
        bs: Seq<<Self::B as DeepView>::V>,
    ) -> <Self::A as DeepView>::V;

    /// What is put back is what is then found.
    proof fn lemma_foci_refill(
        &self,
        a: <Self::A as DeepView>::V,
        bs: Seq<<Self::B as DeepView>::V>,
    )
        requires
            bs.len() == self.foci(a).len(),
        ensures
            self.foci(self.refill(a, bs)) == bs,
    ;

    /// Runs the traversal in the constant functor over `M`: the result is the
    /// monoid combination, in order, of `k` applied to each part.
    fn f_const<M: Monoid, K: Fn(Self::B) -> Const<M, Self::B>>(&self, k: &K, a: Self::A) -> (r:
        Const<M, Self::A>)
        requires
            accepts_on::<Self::B, Const<M, Self::B>, K>(*k, self.foci(a.deep_view())),
        ensures
            folded(*k, self.foci(a.deep_view()), r.0@),
    ;

    /// Runs the traversal in the identity functor: each part is replaced by
    /// what `k` gives for it.
    fn f_identity<K: Fn(Self::B) -> Identity<Self::B>>(&self, k: &K, a: Self::A) -> (r: Identity<
        Self::A,
    >)
        requires
            accepts_on::<Self::B, Identity<Self::B>, K>(*k, self.foci(a.deep_view())),
        ensures
            updated(
                *k,
                self.foci(a.deep_view()),
                |bs: Seq<<Self::B as DeepView>::V>| self.refill(a.deep_view(), bs),
                r.0.deep_view(),
            ),
    ;
}

/// Folding, updating and composing traversals.
pub trait TraversalExt: Traversal {
    /// The parts, in order.
    fn t_to_vec(&self, a: Self::A) -> (r: Vec<Self::B>)
        ensures
            r.deep_view() == self.foci(a.deep_view()),
    {
        let k = |b: Self::B| -> (c: Const<Vec<Self::B>, Self::B>)
            ensures
                c.0@ == seq![b],
            {
                let mut v = Vec::new();
                v.push(b);
                Const(v, PhantomData)
            };
        let ghost ag = a.deep_view();
        let r = self.f_const(&k, a);
        proof {
            let cs = choose|cs: Seq<Const<Vec<Self::B>, Self::B>>|
                applied(k, self.foci(ag), cs) && r.0@ == mconcat::<Vec<Self::B>>(const_values(cs));
            assert forall|i: int| 0 <= i < cs.len() implies #[trigger] const_values(cs)[i] == seq![
                const_values(cs)[i][0],
            ] && const_values(cs)[i][0].deep_view() == self.foci(ag)[i] by {
                assert(called_on(k, self.foci(ag)[i], cs[i]));
            }
            lemma_mconcat_singletons::<Self::B>(const_values(cs));
        }
        r.0
    }

    /// `a` with each part replaced by what `f` returns for it.
    fn over<F: Fn(Self::B) -> Self::B>(&self, a: Self::A, f: F) -> (r: Self::A)
        requires
            accepts_on::<Self::B, Self::B, F>(f, self.foci(a.deep_view())),
        ensures
            refilled_through(
                f,
                self.foci(a.deep_view()),
                |bs: Seq<<Self::B as DeepView>::V>| self.refill(a.deep_view(), bs),
                r.deep_view(),
            ),
    {
        let fr = &f;
        let k = |b: Self::B| -> (c: Identity<Self::B>)
            requires
                call_requires(fr, (b,)),
            ensures
                call_ensures(*fr, (b,), c.0),
            { Identity(fr(b)) };
        let ghost ag = a.deep_view();
        let r = self.f_identity(&k, a);
        proof {
            let parts = self.foci(ag);
            let outs = choose|outs: Seq<<Self::B as DeepView>::V>|
                mapped(k, parts, outs) && r.0.deep_view() == self.refill(ag, outs);
            let cs = choose|cs: Seq<Identity<Self::B>>|
                applied(k, parts, cs) && outs == identity_models(cs);
            assert forall|i: int| 0 <= i < parts.len() implies #[trigger] through(
                f,
                parts[i],
                outs[i],
            ) by {
                assert(called_on(k, parts[i], cs[i]));
            }
            assert(all_through(f, parts, outs));
        }
        r.0
    }

    /// This traversal followed by the lens `other`.
    fn and<O: Lens<A = Self::B>>(self, other: O) -> (r: Compose<Self, Lift<O>>)
        ensures
            r.0 == self,
            r.1.0 == other,
    {
        Compose(self, Lift(other))
    }

    /// This traversal followed by the traversal `other`.
    fn all<O: Traversal<A = Self::B>>(self, other: O) -> (r: Compose<Self, O>)
        ensures
            r.0 == self,
            r.1 == other,
    {
        Compose(self, other)
    }
}

impl<T: Traversal> TraversalExt for T {

}

/// Folding singletons gives the sequence of their elements.
proof fn lemma_mconcat_singletons<B>(vs: Seq<Seq<B>>)
    requires
        forall|i: int| 0 <= i < vs.len() ==> #[trigger] vs[i] == seq![vs[i][0]],
    ensures
        mconcat::<Vec<B>>(vs) =~= Seq::new(vs.len(), |i: int| vs[i][0]),
    decreases vs.len(),
{
    if vs.len() > 0 {
        let init = vs.drop_last();
        assert forall|i: int| 0 <= i < init.len() implies #[trigger] init[i] == seq![init[i][0]] by {
            assert(init[i] == vs[i]);
        }
        lemma_mconcat_singletons::<B>(init);
        assert(vs.last() == vs[vs.len() - 1]);
    }
}

/// The traversal over all elements of a vector.
pub struct VecElems<X>(PhantomData<X>);

/// The traversal over all elements of a vector, in order.
pub fn elems<X>() -> (r: VecElems<X>) {
    VecElems(PhantomData)
}

impl<X: DeepView> Traversal for VecElems<X> {
    type A = Vec<X>;

    type B = X;

    open spec fn foci(&self, a: Seq<X::V>) -> Seq<X::V> {
        a
    }

    open spec fn refill(&self, a: Seq<X::V>, bs: Seq<X::V>) -> Seq<X::V> {
        bs
    }

    proof fn lemma_foci_refill(&self, a: Seq<X::V>, bs: Seq<X::V>) {
    }

    fn f_const<M: Monoid, K: Fn(X) -> Const<M, X>>(&self, k: &K, a: Vec<X>) -> (r: Const<
        M,
        Vec<X>,
    >) {
        let ghost s = a.deep_view();
        let ghost av = a@;
        let mut acc: Const<M, Vec<X>> = Const::pure(Vec::new());
        let ghost mut cs: Seq<Const<M, X>> = Seq::empty();
        for x in it: a.into_iter()
            invariant
                accepts_on::<X, Const<M, X>, K>(*k, s),
                it.seq() == av,
                s == av.map_values(|x: X| x.deep_view()),
                cs.len() == it.index(),
                applied(*k, s.take(it.index() as int), cs),
                acc.0@ == mconcat::<M>(const_values(cs)),
        {
            let ghost i = it.index();
            assert(s[i as int] == x.deep_view());
            assert(s.contains(x.deep_view()));
            let kx = k(x);
            let ghost kxg = kx;
            let paired = acc.seq(kx);
            acc = paired.fmap(|p: (Vec<X>, X)| {
                let (mut elems, elem) = p;
                elems.push(elem);
                elems
            });
            proof {
                let ncs = cs.push(kxg);
                assert(called_on::<X, Const<M, X>, K>(*k, s[i as int], kxg));
                assert forall|j: int| 0 <= j < i + 1 implies #[trigger] called_on::<X, Const<M, X>, K>(
                    *k,
                    s.take(i + 1)[j],
                    ncs[j],
                ) by {
                    if j < i {
                        assert(s.take(i + 1)[j] == s.take(i as int)[j]);
                    }
                }
                assert(const_values(ncs).drop_last() =~= const_values(cs));
                cs = ncs;
            }
        }
        proof {
            assert(s.take(av.len() as int) =~= s);
            assert(applied(*k, s, cs));
            assert(folded(*k, s, acc.0@));
        }
        acc
    }

    fn f_identity<K: Fn(X) -> Identity<X>>(&self, k: &K, a: Vec<X>) -> (r: Identity<Vec<X>>) {
        let ghost s = a.deep_view();
        let ghost av = a@;
        let mut acc: Identity<Vec<X>> = Identity::pure(Vec::new());
        let ghost mut cs: Seq<Identity<X>> = Seq::empty();
        for x in it: a.into_iter()
            invariant
                accepts_on::<X, Identity<X>, K>(*k, s),
                it.seq() == av,
                s == av.map_values(|x: X| x.deep_view()),
                cs.len() == it.index(),
                applied(*k, s.take(it.index() as int), cs),
                acc.0.deep_view() == identity_models(cs),
        {
            let ghost i = it.index();
            assert(s[i as int] == x.deep_view());
            assert(s.contains(x.deep_view()));
            let kx = k(x);
            let ghost kxg = kx;
            let ghost old_acc = acc.0;
            let paired = acc.seq(kx);
            assert(paired.0 == (old_acc, kxg.0));
            acc = paired.fmap(|p: (Vec<X>, X)| -> (r: Vec<X>)
                ensures r@ == p.0@.push(p.1),
                {
                    let (mut elems, elem) = p;
                    elems.push(elem);
                    elems
                });
            proof {
                let ncs = cs.push(kxg);
                assert(called_on::<X, Identity<X>, K>(*k, s[i as int], kxg));
                assert forall|j: int| 0 <= j < i + 1 implies #[trigger] called_on::<X, Identity<X>, K>(
                    *k,
                    s.take(i + 1)[j],
                    ncs[j],
                ) by {
                    if j < i {
                        assert(s.take(i + 1)[j] == s.take(i as int)[j]);
                    }
                }
                assert(acc.0@ == old_acc@.push(kxg.0));
                assert(old_acc.deep_view().len() == old_acc@.len());
                assert(old_acc@.len() == i);
                assert forall|j: int| 0 <= j < i + 1 implies acc.0.deep_view()[j] == #[trigger] identity_models(ncs)[j] by {
                    if j < i {
                        assert(acc.0@[j] == old_acc@[j]);
                        assert(old_acc.deep_view()[j] == identity_models(cs)[j]);
                    }
                }
                assert(acc.0.deep_view() =~= identity_models(ncs));
                cs = ncs;
            }
        }
        proof {
            assert(s.take(av.len() as int) =~= s);
            assert(applied(*k, s, cs));
            assert(mapped(*k, s, acc.0.deep_view()));
        }
        acc
    }
}

} // verus!

verus! {

impl<L: Lens> Traversal for Lift<L> {
    type A = L::A;

    type B = L::B;

    open spec fn foci(&self, a: <L::A as DeepView>::V) -> Seq<<L::B as DeepView>::V> {
        seq![self.0.view_get(a)]
    }

    open spec fn refill(
        &self,
        a: <L::A as DeepView>::V,
        bs: Seq<<L::B as DeepView>::V>,
    ) -> <L::A as DeepView>::V {
        self.0.view_set(a, bs[0])
    }

    proof fn lemma_foci_refill(&self, a: <L::A as DeepView>::V, bs: Seq<<L::B as DeepView>::V>) {
        self.0.lemma_get_set(a, bs[0]);
        assert(bs =~= seq![bs[0]]);
    }

    fn f_const<M: Monoid, K: Fn(L::B) -> Const<M, L::B>>(&self, k: &K, a: L::A) -> (r: Const<
        M,
        L::A,
    >) {
        let ghost ag = a.deep_view();
        let r = self.0.f_const(k, a);
        proof {
            let part = self.0.view_get(ag);
            let c = choose|c: Const<M, L::B>| called_on(*k, part, c) && c.0 == r.0;
            let cs = seq![c];
            assert(applied(*k, seq![part], cs));
            M::lemma_zero_left(c.0@);
            assert(const_values(cs).drop_last() =~= Seq::empty());
            assert(const_values(cs).last() == c.0@);
            assert(mconcat::<M>(const_values(cs).drop_last()) == M::spec_zero());
            assert(mconcat::<M>(const_values(cs)) == r.0@);
        }
        r
    }

    fn f_identity<K: Fn(L::B) -> Identity<L::B>>(&self, k: &K, a: L::A) -> (r: Identity<L::A>) {
        let ghost ag = a.deep_view();
        let r = self.0.f_identity(k, a);
        proof {
            let part = self.0.view_get(ag);
            let c = choose|c: Identity<L::B>|
                called_on(*k, part, c) && r.0.deep_view() == self.0.view_set(ag, c.0.deep_view());
            let cs = seq![c];
            assert(applied(*k, seq![part], cs));
            assert(identity_models(cs) =~= seq![c.0.deep_view()]);
            assert(mapped(*k, seq![part], identity_models(cs)));
        }
        r
    }
}

/// Concatenation of a sequence of sequences, from the left.
pub open spec fn concat_all<T>(ss: Seq<Seq<T>>) -> Seq<T>
    decreases ss.len(),
{
    if ss.len() == 0 {
        Seq::empty()
    } else {
        concat_all(ss.drop_last()) + ss.last()
    }
}

/// Where the `i`-th piece starts in `concat_all(ss)`.
pub open spec fn piece_start<T>(ss: Seq<Seq<T>>, i: int) -> int {
    concat_all(ss.take(i)).len() as int
}

/// The `i`-th piece of `bs` when it is cut at the lengths of the elements of `ss`.
pub open spec fn piece<T, U>(bs: Seq<U>, ss: Seq<Seq<T>>, i: int) -> Seq<U> {
    bs.subrange(piece_start(ss, i), piece_start(ss, i + 1))
}

proof fn lemma_concat_all_take<T>(ss: Seq<Seq<T>>, i: int)
    requires
        0 <= i < ss.len(),
    ensures
        concat_all(ss.take(i + 1)) == concat_all(ss.take(i)) + ss[i],
{
    assert(ss.take(i + 1).drop_last() =~= ss.take(i));
}

proof fn lemma_concat_all_lengths<T, U>(ss: Seq<Seq<T>>, xs: Seq<Seq<U>>)
    requires
        ss.len() == xs.len(),
        forall|i: int| 0 <= i < ss.len() ==> (#[trigger] ss[i]).len() == xs[i].len(),
    ensures
        concat_all(ss).len() == concat_all(xs).len(),
    decreases ss.len(),
{
    if ss.len() > 0 {
        lemma_concat_all_lengths(ss.drop_last(), xs.drop_last());
        assert(ss.last() == ss[ss.len() - 1]);
    }
}

proof fn lemma_piece_start_mono<T>(ss: Seq<Seq<T>>, i: int, j: int)
    requires
        0 <= i <= j <= ss.len(),
    ensures
        piece_start(ss, i) <= piece_start(ss, j),
    decreases j - i,
{
    if i < j {
        lemma_piece_start_mono(ss, i, j - 1);
        lemma_concat_all_take(ss, j - 1);
    }
}

proof fn lemma_piece_start_bounded<T>(ss: Seq<Seq<T>>, i: int)
    requires
        0 <= i <= ss.len(),
    ensures
        0 <= piece_start(ss, i) <= concat_all(ss).len(),
{
    lemma_piece_start_mono(ss, i, ss.len() as int);
    assert(ss.take(ss.len() as int) =~= ss);
}

proof fn lemma_concat_all_prefix<T>(xs: Seq<Seq<T>>, j: int)
    requires
        0 <= j <= xs.len(),
    ensures
        concat_all(xs.take(j)).len() <= concat_all(xs).len(),
        concat_all(xs).subrange(0, concat_all(xs.take(j)).len() as int) == concat_all(xs.take(j)),
    decreases xs.len(),
{
    if j == xs.len() {
        assert(xs.take(j) =~= xs);
        assert(concat_all(xs).subrange(0, concat_all(xs).len() as int) =~= concat_all(xs));
    } else {
        let init = xs.drop_last();
        assert(xs.take(j) =~= init.take(j));
        lemma_concat_all_prefix(init, j);
        assert(concat_all(xs).subrange(0, concat_all(xs.take(j)).len() as int) =~= concat_all(
            init,
        ).subrange(0, concat_all(init.take(j)).len() as int));
    }
}

/// Cutting a concatenation at the lengths of the pieces gives the pieces back.
proof fn lemma_piece_of_concat<T, U>(xs: Seq<Seq<U>>, ss: Seq<Seq<T>>, i: int)
    requires
        ss.len() == xs.len(),
        forall|j: int| 0 <= j < ss.len() ==> (#[trigger] ss[j]).len() == xs[j].len(),
        0 <= i < ss.len(),
    ensures
        piece(concat_all(xs), ss, i) == xs[i],
{
    assert forall|j: int| 0 <= j < i + 1 implies (#[trigger] ss.take(i + 1)[j]).len() == xs.take(
        i + 1,
    )[j].len() by {
        assert(ss.take(i + 1)[j] == ss[j]);
    }
    assert forall|j: int| 0 <= j < i implies (#[trigger] ss.take(i)[j]).len() == xs.take(
        i,
    )[j].len() by {
        assert(ss.take(i)[j] == ss[j]);
    }
    lemma_concat_all_lengths(ss.take(i + 1), xs.take(i + 1));
    lemma_concat_all_lengths(ss.take(i), xs.take(i));
    lemma_concat_all_take(xs, i);
    lemma_concat_all_prefix(xs, i + 1);
    let whole = concat_all(xs);
    let pre = concat_all(xs.take(i));
    let pre1 = concat_all(xs.take(i + 1));
    assert(pre1 == pre + xs[i]);
    assert(whole.subrange(0, pre1.len() as int) == pre1);
    assert(whole.subrange(pre.len() as int, pre1.len() as int) =~= pre1.subrange(
        pre.len() as int,
        pre1.len() as int,
    ));
    assert(pre1.subrange(pre.len() as int, pre1.len() as int) =~= xs[i]);
}

/// Concatenating the pieces of `bs` gives `bs` back.
proof fn lemma_concat_pieces<T, U>(bs: Seq<U>, ss: Seq<Seq<T>>, j: int)
    requires
        bs.len() == concat_all(ss).len(),
        0 <= j <= ss.len(),
    ensures
        concat_all(Seq::new(j as nat, |i: int| piece(bs, ss, i))) == bs.subrange(
            0,
            piece_start(ss, j),
        ),
    decreases j,
{
    let pcs = Seq::new(j as nat, |i: int| piece(bs, ss, i));
    if j == 0 {
        assert(ss.take(0) =~= Seq::<Seq<T>>::empty());
        assert(bs.subrange(0, 0) =~= Seq::<U>::empty());
    } else {
        lemma_concat_pieces(bs, ss, j - 1);
        assert(pcs.drop_last() =~= Seq::new((j - 1) as nat, |i: int| piece(bs, ss, i)));
        lemma_piece_start_mono(ss, j - 1, j);
        lemma_piece_start_mono(ss, 0, j - 1);
        lemma_piece_start_bounded(ss, j);
        assert(bs.subrange(0, piece_start(ss, j - 1)) + piece(bs, ss, j - 1) =~= bs.subrange(
            0,
            piece_start(ss, j),
        ));
    }
}

proof fn lemma_applied_concat<B: DeepView, R, K: Fn(B) -> R>(
    k: K,
    ps: Seq<Seq<B::V>>,
    cs: Seq<Seq<R>>,
)
    requires
        ps.len() == cs.len(),
        forall|i: int| 0 <= i < ps.len() ==> applied(k, #[trigger] ps[i], cs[i]),
    ensures
        applied(k, concat_all(ps), concat_all(cs)),
    decreases ps.len(),
{
    if ps.len() > 0 {
        let pi = ps.drop_last();
        let ci = cs.drop_last();
        assert forall|i: int| 0 <= i < pi.len() implies applied(k, #[trigger] pi[i], ci[i]) by {
            assert(pi[i] == ps[i]);
        }
        lemma_applied_concat(k, pi, ci);
        let p0 = concat_all(pi);
        let c0 = concat_all(ci);
        let pl = ps[ps.len() - 1];
        let cl = cs[cs.len() - 1];
        assert(applied(k, pl, cl));
        assert forall|i: int| 0 <= i < (p0 + pl).len() implies #[trigger] called_on::<B, R, K>(
            k,
            (p0 + pl)[i],
            (c0 + cl)[i],
        ) by {
            if i < p0.len() {
                assert(called_on::<B, R, K>(k, p0[i], c0[i]));
            } else {
                assert(called_on::<B, R, K>(k, pl[i - p0.len()], cl[i - p0.len()]));
            }
        }
    }
}

proof fn lemma_mconcat_append<M: Monoid>(xs: Seq<M::V>, ys: Seq<M::V>)
    ensures
        mconcat::<M>(xs + ys) == M::spec_concat(mconcat::<M>(xs), mconcat::<M>(ys)),
    decreases ys.len(),
{
    if ys.len() == 0 {
        assert(xs + ys =~= xs);
        M::lemma_zero_right(mconcat::<M>(xs));
    } else {
        let yi = ys.drop_last();
        lemma_mconcat_append::<M>(xs, yi);
        assert((xs + ys).drop_last() =~= xs + yi);
        M::lemma_assoc(mconcat::<M>(xs), mconcat::<M>(yi), ys.last());
    }
}

proof fn lemma_mconcat_concat_all<M: Monoid>(mss: Seq<Seq<M::V>>)
    ensures
        mconcat::<M>(concat_all(mss)) == mconcat::<M>(
            Seq::new(mss.len(), |i: int| mconcat::<M>(mss[i])),
        ),
    decreases mss.len(),
{
    let whole = Seq::new(mss.len(), |i: int| mconcat::<M>(mss[i]));
    if mss.len() > 0 {
        let init = mss.drop_last();
        lemma_mconcat_concat_all::<M>(init);
        lemma_mconcat_append::<M>(concat_all(init), mss.last());
        assert(whole.drop_last() =~= Seq::new(init.len(), |i: int| mconcat::<M>(init[i])));
    }
}

proof fn lemma_map_concat_all<T, U>(ss: Seq<Seq<T>>, f: spec_fn(T) -> U)
    ensures
        concat_all(ss).map_values(f) == concat_all(
            Seq::new(ss.len(), |i: int| ss[i].map_values(f)),
        ),
    decreases ss.len(),
{
    let ms = Seq::new(ss.len(), |i: int| ss[i].map_values(f));
    if ss.len() > 0 {
        let init = ss.drop_last();
        lemma_map_concat_all(init, f);
        assert(ms.drop_last() =~= Seq::new(init.len(), |i: int| init[i].map_values(f)));
        assert((concat_all(init) + ss.last()).map_values(f) =~= concat_all(init).map_values(f)
            + ss.last().map_values(f));
    } else {
        assert(concat_all(ss).map_values(f) =~= Seq::<U>::empty());
    }
}

proof fn lemma_contains_concat_all<T>(ss: Seq<Seq<T>>, j: int, x: T)
    requires
        0 <= j < ss.len(),
        ss[j].contains(x),
    ensures
        concat_all(ss).contains(x),
    decreases ss.len(),
{
    let init = ss.drop_last();
    if j == ss.len() - 1 {
        let m = choose|m: int| 0 <= m < ss[j].len() && ss[j][m] == x;
        assert((concat_all(init) + ss.last())[concat_all(init).len() + m] == x);
    } else {
        assert(init[j] == ss[j]);
        lemma_contains_concat_all(init, j, x);
        let m = choose|m: int| 0 <= m < concat_all(init).len() && concat_all(init)[m] == x;
        assert((concat_all(init) + ss.last())[m] == x);
    }
}

impl<T1: Traversal, T2: Traversal<A = T1::B>> Compose<T1, T2> {
    /// A function that runs the second traversal with `k` on each part of the
    /// first may be called on all those parts, when `k` may be called on all
    /// parts of the composition.
    proof fn lemma_accepts_inner<R1, R2, K: Fn(T2::B) -> R2, I: Fn(T1::B) -> R1>(
        &self,
        a: <T1::A as DeepView>::V,
        k: &K,
        inner: I,
    )
        requires
            accepts_on::<T2::B, R2, K>(*k, self.foci(a)),
            forall|b1: T1::B|
                accepts_on::<T2::B, R2, &K>(k, self.1.foci(b1.deep_view())) ==> call_requires(
                    inner,
                    (b1,),
                ),
        ensures
            accepts_on::<T1::B, R1, I>(inner, self.0.foci(a)),
    {
        let outer = self.0.foci(a);
        let ps = outer.map_values(|b: <T1::B as DeepView>::V| self.1.foci(b));
        assert forall|b1: T1::B| #[trigger] outer.contains(b1.deep_view()) implies call_requires(
            inner,
            (b1,),
        ) by {
            let j = choose|j: int| 0 <= j < outer.len() && outer[j] == b1.deep_view();
            assert forall|b: T2::B| #[trigger]
                self.1.foci(b1.deep_view()).contains(b.deep_view()) implies call_requires(
                *k,
                (b,),
            ) by {
                assert(ps[j] == self.1.foci(b1.deep_view()));
                lemma_contains_concat_all(ps, j, b.deep_view());
            }
        }
    }
}

impl<T1: Traversal, T2: Traversal<A = T1::B>> Traversal for Compose<T1, T2> {
    type A = T1::A;

    type B = T2::B;

    open spec fn foci(&self, a: <T1::A as DeepView>::V) -> Seq<<T2::B as DeepView>::V> {
        concat_all(self.0.foci(a).map_values(|b: <T1::B as DeepView>::V| self.1.foci(b)))
    }

    open spec fn refill(
        &self,
        a: <T1::A as DeepView>::V,
        bs: Seq<<T2::B as DeepView>::V>,
    ) -> <T1::A as DeepView>::V {
        let outer = self.0.foci(a);
        let ps = outer.map_values(|b: <T1::B as DeepView>::V| self.1.foci(b));
        self.0.refill(
            a,
            Seq::new(outer.len(), |i: int| self.1.refill(outer[i], piece(bs, ps, i))),
        )
    }

    proof fn lemma_foci_refill(
        &self,
        a: <T1::A as DeepView>::V,
        bs: Seq<<T2::B as DeepView>::V>,
    ) {
        let outer = self.0.foci(a);
        let ps = outer.map_values(|b: <T1::B as DeepView>::V| self.1.foci(b));
        let inner = Seq::new(outer.len(), |i: int| self.1.refill(outer[i], piece(bs, ps, i)));
        self.0.lemma_foci_refill(a, inner);
        let pcs = Seq::new(outer.len(), |i: int| piece(bs, ps, i));
        assert forall|i: int| 0 <= i < outer.len() implies self.1.foci(#[trigger] inner[i])
            == pcs[i] by {
            lemma_piece_start_mono(ps, i, i + 1);
            lemma_piece_start_bounded(ps, i + 1);
            lemma_concat_all_take(ps, i);
            self.1.lemma_foci_refill(outer[i], piece(bs, ps, i));
        }
        let found = self.0.foci(self.0.refill(a, inner));
        assert(found.map_values(|b: <T1::B as DeepView>::V| self.1.foci(b)) =~= pcs);
        lemma_concat_pieces(bs, ps, ps.len() as int);
        assert(ps.take(ps.len() as int) =~= ps);
        assert(bs.subrange(0, bs.len() as int) =~= bs);
    }

    fn f_const<M: Monoid, K: Fn(T2::B) -> Const<M, T2::B>>(&self, k: &K, a: T1::A) -> (r: Const<
        M,
        T1::A,
    >) {
        let inner = |b1: T1::B| -> (c: Const<M, T1::B>)
            requires
                accepts_on::<T2::B, Const<M, T2::B>, &K>(k, self.1.foci(b1.deep_view())),
            ensures
                folded(*k, self.1.foci(b1.deep_view()), c.0@),
            { self.1.f_const(k, b1) };
        let ghost ag = a.deep_view();
        proof {
            self.lemma_accepts_inner::<Const<M, T1::B>, Const<M, T2::B>, K, _>(ag, k, inner);
        }
        let r = self.0.f_const(&inner, a);
        proof {
            let outer = self.0.foci(ag);
            let ps = outer.map_values(|b: <T1::B as DeepView>::V| self.1.foci(b));
            let cs1 = choose|cs1: Seq<Const<M, T1::B>>|
                applied(inner, outer, cs1) && r.0@ == mconcat::<M>(const_values(cs1));
            let css = Seq::new(
                outer.len(),
                |i: int|
                    choose|cs2: Seq<Const<M, T2::B>>|
                        applied(*k, ps[i], cs2) && cs1[i].0@ == mconcat::<M>(const_values(cs2)),
            );
            assert forall|i: int| 0 <= i < outer.len() implies applied(*k, #[trigger] ps[i], css[i])
                && cs1[i].0@ == mconcat::<M>(const_values(css[i])) by {
                assert(called_on(inner, outer[i], cs1[i]));
                assert(folded(*k, ps[i], cs1[i].0@));
            }
            lemma_applied_concat(*k, ps, css);
            let vss = Seq::new(css.len(), |i: int| const_values(css[i]));
            lemma_mconcat_concat_all::<M>(vss);
            lemma_map_concat_all(css, |c: Const<M, T2::B>| c.0@);
            assert(Seq::new(css.len(), |i: int| css[i].map_values(|c: Const<M, T2::B>| c.0@))
                =~= vss);
            assert(const_values(cs1) =~= Seq::new(vss.len(), |i: int| mconcat::<M>(vss[i])));
            assert(folded(*k, self.foci(ag), r.0@));
        }
        r
    }

    fn f_identity<K: Fn(T2::B) -> Identity<T2::B>>(&self, k: &K, a: T1::A) -> (r: Identity<T1::A>) {
        let inner = |b1: T1::B| -> (c: Identity<T1::B>)
            requires
                accepts_on::<T2::B, Identity<T2::B>, &K>(k, self.1.foci(b1.deep_view())),
            ensures
                updated(
                    *k,
                    self.1.foci(b1.deep_view()),
                    |bs: Seq<<T2::B as DeepView>::V>| self.1.refill(b1.deep_view(), bs),
                    c.0.deep_view(),
                ),
            { self.1.f_identity(k, b1) };
        let ghost ag = a.deep_view();
        proof {
            self.lemma_accepts_inner::<Identity<T1::B>, Identity<T2::B>, K, _>(ag, k, inner);
        }
        let r = self.0.f_identity(&inner, a);
        proof {
            let outer = self.0.foci(ag);
            let ps = outer.map_values(|b: <T1::B as DeepView>::V| self.1.foci(b));
            let outs1 = choose|outs1: Seq<<T1::B as DeepView>::V>|
                mapped(inner, outer, outs1) && r.0.deep_view() == self.0.refill(ag, outs1);
            let cs1 = choose|cs1: Seq<Identity<T1::B>>|
                applied(inner, outer, cs1) && outs1 == identity_models(cs1);
            let oss = Seq::new(
                outer.len(),
                |i: int|
                    choose|outs2: Seq<<T2::B as DeepView>::V>|
                        mapped(*k, ps[i], outs2) && cs1[i].0.deep_view() == self.1.refill(
                            outer[i],
                            outs2,
                        ),
            );
            let css = Seq::new(
                outer.len(),
                |i: int|
                    choose|cs2: Seq<Identity<T2::B>>|
                        applied(*k, ps[i], cs2) && oss[i] == identity_models(cs2),
            );
            assert forall|i: int| 0 <= i < outer.len() implies applied(*k, #[trigger] ps[i], css[i])
                && oss[i] == identity_models(css[i]) && cs1[i].0.deep_view() == self.1.refill(
                outer[i],
                oss[i],
            ) by {
                assert(called_on(inner, outer[i], cs1[i]));
                assert(updated(
                    *k,
                    ps[i],
                    |bs: Seq<<T2::B as DeepView>::V>| self.1.refill(outer[i], bs),
                    cs1[i].0.deep_view(),
                ));
            }
            lemma_applied_concat(*k, ps, css);
            lemma_map_concat_all(css, |c: Identity<T2::B>| c.0.deep_view());
            assert(Seq::new(
                css.len(),
                |i: int| css[i].map_values(|c: Identity<T2::B>| c.0.deep_view()),
            ) =~= oss);
            let outs = concat_all(oss);
            assert(identity_models(concat_all(css)) =~= concat_all(css).map_values(
                |c: Identity<T2::B>| c.0.deep_view(),
            ));
            assert(identity_models(concat_all(css)) == outs);
            assert(applied(*k, self.foci(ag), concat_all(css)));
            assert(mapped(*k, self.foci(ag), outs));
            assert forall|i: int| 0 <= i < outer.len() implies (#[trigger] ps[i]).len()
                == oss[i].len() by {
                assert(applied(*k, ps[i], css[i]));
            }
            assert forall|i: int| 0 <= i < outer.len() implies #[trigger] piece(outs, ps, i)
                == oss[i] by {
                lemma_piece_of_concat(oss, ps, i);
            }
            assert(Seq::new(outer.len(), |i: int| self.1.refill(outer[i], piece(outs, ps, i)))
                =~= outs1);
            assert(updated(
                *k,
                self.foci(ag),
                |bs: Seq<<T2::B as DeepView>::V>| self.refill(ag, bs),
                r.0.deep_view(),
            ));
        }
        r
    }
}

} // verus!

verus! {

/// Putting back the parts that were found gives back the whole unchanged.
pub open spec fn refill_unchanged<T: Traversal>(t: &T) -> bool {
    forall|a: <T::A as DeepView>::V| #[trigger] t.refill(a, t.foci(a)) == a
}

/// Law (`over` with the identity): when putting back what was found changes
/// nothing, updating with a function that returns a value with the model of
/// its argument changes nothing.
pub proof fn lemma_over_identity<T: Traversal, F: Fn(T::B) -> T::B>(
    t: &T,
    a: <T::A as DeepView>::V,
    f: F,
    r: <T::A as DeepView>::V,
)
    requires
        refill_unchanged(t),
        forall|b: T::B, c: T::B| #[trigger] call_ensures(f, (b,), c) ==> c.deep_view() == b.deep_view(),
        refilled_through(
            f,
            t.foci(a),
            |bs: Seq<<T::B as DeepView>::V>| t.refill(a, bs),
            r,
        ),
    ensures
        r == a,
{
    let parts = t.foci(a);
    let outs = choose|outs: Seq<<T::B as DeepView>::V>|
        all_through(f, parts, outs) && r == t.refill(a, outs);
    assert forall|i: int| 0 <= i < parts.len() implies outs[i] == parts[i] by {
        assert(through(f, parts[i], outs[i]));
    }
    assert(outs =~= parts);
}

/// Law (a read gives back what an update wrote): after `over` with `f`, the
/// parts are what `f` returned for the parts that were there, in order.
pub proof fn lemma_over_then_read<T: Traversal, F: Fn(T::B) -> T::B>(
    t: &T,
    a: <T::A as DeepView>::V,
    f: F,
    r: <T::A as DeepView>::V,
)
    requires
        refilled_through(
            f,
            t.foci(a),
            |bs: Seq<<T::B as DeepView>::V>| t.refill(a, bs),
            r,
        ),
    ensures
        all_through(f, t.foci(a), t.foci(r)),
{
    let outs = choose|outs: Seq<<T::B as DeepView>::V>|
        all_through(f, t.foci(a), outs) && r == t.refill(a, outs);
    t.lemma_foci_refill(a, outs);
}

/// Law: a composed traversal finds the parts of the inner traversal in each
/// part of the outer one, in order; and updating every part with `g` through
/// the composition is updating every outer part with `g` through the inner
/// traversal.
pub proof fn lemma_compose_nested<T1: Traversal, T2: Traversal<A = T1::B>>(
    t: &Compose<T1, T2>,
    a: <T1::A as DeepView>::V,
    g: spec_fn(<T2::B as DeepView>::V) -> <T2::B as DeepView>::V,
)
    ensures
        t.foci(a) == concat_all(t.0.foci(a).map_values(|b: <T1::B as DeepView>::V| t.1.foci(b))),
        t.refill(a, t.foci(a).map_values(g)) == t.0.refill(
            a,
            t.0.foci(a).map_values(
                |b: <T1::B as DeepView>::V| t.1.refill(b, t.1.foci(b).map_values(g)),
            ),
        ),
{
    let outer = t.0.foci(a);
    let ps = outer.map_values(|b: <T1::B as DeepView>::V| t.1.foci(b));
    let bs = concat_all(ps).map_values(g);
    let xs = Seq::new(ps.len(), |i: int| ps[i].map_values(g));
    lemma_map_concat_all(ps, g);
    assert(bs == concat_all(xs));
    let inner = Seq::new(outer.len(), |i: int| t.1.refill(outer[i], piece(bs, ps, i)));
    let nested = outer.map_values(
        |b: <T1::B as DeepView>::V| t.1.refill(b, t.1.foci(b).map_values(g)),
    );
    assert forall|i: int| 0 <= i < outer.len() implies inner[i] == nested[i] by {
        assert forall|j: int| 0 <= j < ps.len() implies (#[trigger] ps[j]).len() == xs[j].len() by {
        }
        lemma_piece_of_concat(xs, ps, i);
        assert(piece(bs, ps, i) == xs[i]);
    }
    assert(inner =~= nested);
}

/// What a function that gives one result model per argument model returns
/// for each part is the sequence of those models.
proof fn lemma_all_through_determined<B: DeepView, F: Fn(B) -> B>(
    f: F,
    g: spec_fn(B::V) -> B::V,
    parts: Seq<B::V>,
    outs: Seq<B::V>,
)
    requires
        determined_by(f, g),
        all_through(f, parts, outs),
    ensures
        outs == parts.map_values(g),
{
    assert forall|i: int| 0 <= i < parts.len() implies outs[i] == parts.map_values(g)[i] by {
        assert(through(f, parts[i], outs[i]));
        let (b, c) = choose|b: B, c: B|
            b.deep_view() == parts[i] && call_ensures(f, (b,), c) && c.deep_view() == outs[i];
        assert(c.deep_view() == g(b.deep_view()));
    }
    assert(outs =~= parts.map_values(g));
}

/// Law: `over` through a composed traversal is `over` through the outer
/// traversal of `over` through the inner one. `r1` is a result of
/// `Compose(t1, t2).over(a, f)`, `r2` one of `t1.over(a, h)` where `h` is any
/// function whose results are results of `t2.over(b, f)`; for an `f` that
/// gives one result model per argument model (`g`), both are the update of
/// every part by `g`. (The parts themselves are the inner parts of the outer
/// parts, in order: `lemma_compose_nested`.)
pub proof fn lemma_compose_over<
    T1: Traversal,
    T2: Traversal<A = T1::B>,
    F: Fn(T2::B) -> T2::B,
    H: Fn(T1::B) -> T1::B,
>(
    t: &Compose<T1, T2>,
    a: <T1::A as DeepView>::V,
    f: F,
    h: H,
    g: spec_fn(<T2::B as DeepView>::V) -> <T2::B as DeepView>::V,
    r1: <T1::A as DeepView>::V,
    r2: <T1::A as DeepView>::V,
)
    requires
        determined_by(f, g),
        forall|b: T1::B, c: T1::B| #[trigger]
            call_ensures(h, (b,), c) ==> refilled_through(
                f,
                t.1.foci(b.deep_view()),
                |bs: Seq<<T2::B as DeepView>::V>| t.1.refill(b.deep_view(), bs),
                c.deep_view(),
            ),
        refilled_through(
            f,
            t.foci(a),
            |bs: Seq<<T2::B as DeepView>::V>| t.refill(a, bs),
            r1,
        ),
        refilled_through(
            h,
            t.0.foci(a),
            |bs: Seq<<T1::B as DeepView>::V>| t.0.refill(a, bs),
            r2,
        ),
    ensures
        r1 == t.refill(a, t.foci(a).map_values(g)),
        r1 == r2,
{
    let outs1 = choose|outs: Seq<<T2::B as DeepView>::V>|
        all_through(f, t.foci(a), outs) && r1 == t.refill(a, outs);
    lemma_all_through_determined(f, g, t.foci(a), outs1);
    let outer = t.0.foci(a);
    let outs2 = choose|outs: Seq<<T1::B as DeepView>::V>|
        all_through(h, outer, outs) && r2 == t.0.refill(a, outs);
    let nested = |b: <T1::B as DeepView>::V| t.1.refill(b, t.1.foci(b).map_values(g));
    assert forall|i: int| 0 <= i < outer.len() implies outs2[i] == outer.map_values(nested)[i] by {
        assert(through(h, outer[i], outs2[i]));
        let (b, c) = choose|b: T1::B, c: T1::B|
            b.deep_view() == outer[i] && call_ensures(h, (b,), c) && c.deep_view() == outs2[i];
        let x = b.deep_view();
        let inner_outs = choose|outs: Seq<<T2::B as DeepView>::V>|
            all_through(f, t.1.foci(x), outs) && c.deep_view() == t.1.refill(x, outs);
        lemma_all_through_determined(f, g, t.1.foci(x), inner_outs);
    }
    assert(outs2 =~= outer.map_values(nested));
    lemma_compose_nested(t, a, g);
}

/// Every element of a vector is put back where it was found.
pub proof fn lemma_vec_elems_unchanged<X: DeepView>(t: &VecElems<X>)
    ensures
        refill_unchanged(t),
{
}

/// A lens seen as a traversal puts back what it found unchanged (by the lens law).
pub proof fn lemma_lift_unchanged<L: Lens>(t: &Lift<L>)
    ensures
        refill_unchanged(t),
{
    assert forall|a: <L::A as DeepView>::V| #[trigger] t.refill(a, t.foci(a)) == a by {
        t.0.lemma_set_get(a);
    }
}

/// Two traversals that each put back what they found unchanged compose into one that does.
pub proof fn lemma_compose_unchanged<T1: Traversal, T2: Traversal<A = T1::B>>(t: &Compose<T1, T2>)
    requires
        refill_unchanged(&t.0),
        refill_unchanged(&t.1),
    ensures
        refill_unchanged(t),
{
    assert forall|a: <T1::A as DeepView>::V| #[trigger] t.refill(a, t.foci(a)) == a by {
        let outer = t.0.foci(a);
        let ps = outer.map_values(|b: <T1::B as DeepView>::V| t.1.foci(b));
        let bs = concat_all(ps);
        assert forall|i: int| 0 <= i < outer.len() implies #[trigger] piece(bs, ps, i) == ps[i] by {
            lemma_piece_of_concat(ps, ps, i);
        }
        let inner = Seq::new(outer.len(), |i: int| t.1.refill(outer[i], piece(bs, ps, i)));
        assert forall|i: int| 0 <= i < outer.len() implies inner[i] == outer[i] by {
            assert(piece(bs, ps, i) == ps[i]);
            assert(t.1.refill(outer[i], t.1.foci(outer[i])) == outer[i]);
        }
        assert(inner =~= outer);
    }
}

} // verus!

verus! {

/// Law (all elements): the parts of a vector are all its elements, in order,
/// and putting back as many parts replaces the elements by them.
pub proof fn law_elems_all<X: DeepView>(t: &VecElems<X>, s: Seq<X::V>, bs: Seq<X::V>)
    ensures
        t.foci(s) == s,
        bs.len() == s.len() ==> t.refill(s, bs) == bs,
{
}

/// Law (all elements): a result of `over` through all elements has as many
/// elements as the vector, and each is what `f` returned for the element
/// that stood there.
pub proof fn law_elems_over<X: DeepView, F: Fn(X) -> X>(
    t: &VecElems<X>,
    s: Seq<X::V>,
    f: F,
    r: Seq<X::V>,
)
    requires
        refilled_through(f, t.foci(s), |bs: Seq<X::V>| t.refill(s, bs), r),
    ensures
        r.len() == s.len(),
        forall|i: int| 0 <= i < s.len() ==> #[trigger] through(f, s[i], r[i]),
{
    let outs = choose|outs: Seq<X::V>| all_through(f, t.foci(s), outs) && r == t.refill(s, outs);
    assert forall|i: int| 0 <= i < s.len() implies #[trigger] through(f, s[i], r[i]) by {
        assert(through(f, t.foci(s)[i], outs[i]));
    }
}

} // verus!

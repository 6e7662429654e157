use core::marker::PhantomData;
use vstd::prelude::*;

verus! {

/// `g` may be called on every argument.
pub open spec fn accepts_all<X, R, G: Fn(X) -> R>(g: G) -> bool {
    forall|x: X| #[trigger] call_requires(g, (x,))
}

/// A monoid: an associative combination with a neutral element.
///
/// The spec functions work on the view of the type; every instance proves the
/// three monoid laws.
pub trait Monoid: View + Sized {
    spec fn spec_zero() -> Self::V;

    spec fn spec_concat(a: Self::V, b: Self::V) -> Self::V;

    /// `zero` is a left unit of `concat`.
    proof fn lemma_zero_left(a: Self::V)
        ensures
            Self::spec_concat(Self::spec_zero(), a) == a,
    ;

    /// `zero` is a right unit of `concat`.
    proof fn lemma_zero_right(a: Self::V)
        ensures
            Self::spec_concat(a, Self::spec_zero()) == a,
    ;

    /// `concat` is associative.
    proof fn lemma_assoc(a: Self::V, b: Self::V, c: Self::V)
        ensures
            Self::spec_concat(Self::spec_concat(a, b), c) == Self::spec_concat(
                a,
                Self::spec_concat(b, c),
            ),
    ;

    fn zero() -> (r: Self)
        ensures
            r@ == Self::spec_zero(),
    ;

    fn concat(a: Self, b: Self) -> (r: Self)
        ensures
            r@ == Self::spec_concat(a@, b@),
    ;
}

impl<X> Monoid for Vec<X> {
    open spec fn spec_zero() -> Seq<X> {
        Seq::empty()
    }

    open spec fn spec_concat(a: Seq<X>, b: Seq<X>) -> Seq<X> {
        a + b
    }

    proof fn lemma_zero_left(a: Seq<X>) {
        assert(Seq::<X>::empty() + a =~= a);
    }

    proof fn lemma_zero_right(a: Seq<X>) {
        assert(a + Seq::<X>::empty() =~= a);
    }

    proof fn lemma_assoc(a: Seq<X>, b: Seq<X>, c: Seq<X>) {
        assert((a + b) + c =~= a + (b + c));
    }

    fn zero() -> (r: Self) {
        Vec::new()
    }

    fn concat(a: Self, b: Self) -> (r: Self) {
        let mut a = a;
        let mut b = b;
        a.append(&mut b);
        a
    }
}

/// The leftmost value found so far, if any (the "first" monoid).
pub enum Leftmost<A> {
    Found(A),
    Nothing,
}

impl<A> View for Leftmost<A> {
    type V = Leftmost<A>;

    open spec fn view(&self) -> Leftmost<A> {
        *self
    }
}

impl<A> Leftmost<A> {
    /// The value as an `Option`.
    pub open spec fn spec_to_opt(self) -> Option<A> {
        match self {
            Leftmost::Found(a) => Some(a),
            Leftmost::Nothing => None,
        }
    }

    /// The value found, if any.
    pub fn to_opt(self) -> (r: Option<A>)
        ensures
            r == self.spec_to_opt(),
    {
        match self {
            Leftmost::Found(a) => Some(a),
            Leftmost::Nothing => None,
        }
    }
}

impl<A> Monoid for Leftmost<A> {
    open spec fn spec_zero() -> Leftmost<A> {
        Leftmost::Nothing
    }

    open spec fn spec_concat(a: Leftmost<A>, b: Leftmost<A>) -> Leftmost<A> {
        match a {
            Leftmost::Found(x) => Leftmost::Found(x),
            Leftmost::Nothing => b,
        }
    }

    proof fn lemma_zero_left(a: Leftmost<A>) {
    }

    proof fn lemma_zero_right(a: Leftmost<A>) {
    }

    proof fn lemma_assoc(a: Leftmost<A>, b: Leftmost<A>, c: Leftmost<A>) {
    }

    fn zero() -> (r: Self) {
        Leftmost::Nothing
    }

    fn concat(a: Self, b: Self) -> (r: Self) {
        match (a, b) {
            (Leftmost::Found(a), _) => Leftmost::Found(a),
            (Leftmost::Nothing, Leftmost::Found(b)) => Leftmost::Found(b),
            (Leftmost::Nothing, Leftmost::Nothing) => Leftmost::Nothing,
        }
    }
}

/// The identity functor: a value, unchanged.
pub struct Identity<A>(pub A);

/// The constant functor: carries an `X` and ignores its element type.
pub struct Const<X, A>(pub X, pub PhantomData<A>);

/// A functor at element type `Elem`; `fmap` with a function to `B` gives `Mapped`
/// (the same functor at element type `B`).
pub trait Functor<B>: Sized {
    type Elem;

    type Mapped;

    fn fmap<G: Fn(Self::Elem) -> B>(self, f: G) -> Self::Mapped
        requires
            accepts_all::<Self::Elem, B, G>(f),
    ;
}

/// An applicative functor at element type `Elem`: `pure` lifts a plain value.
pub trait Applicative: Sized {
    type Elem;

    fn pure(a: Self::Elem) -> Self;
}

/// Sequencing of an applicative: `seq` pairs it with the same functor at element
/// type `B` (`Other`), giving the functor at `(Elem, B)` (`Paired`).
pub trait Apply<B>: Applicative {
    type Other;

    type Paired;

    fn seq(self, other: Self::Other) -> Self::Paired;
}

impl<A, B> Functor<B> for Identity<A> {
    type Elem = A;

    type Mapped = Identity<B>;

    fn fmap<G: Fn(A) -> B>(self, f: G) -> (r: Identity<B>)
        ensures
            call_ensures(f, (self.0,), r.0),
    {
        Identity(f(self.0))
    }
}

impl<A> Applicative for Identity<A> {
    type Elem = A;

    fn pure(a: A) -> (r: Identity<A>)
        ensures
            r.0 == a,
    {
        Identity(a)
    }
}

impl<A, B> Apply<B> for Identity<A> {
    type Other = Identity<B>;

    type Paired = Identity<(A, B)>;

    fn seq(self, other: Identity<B>) -> (r: Identity<(A, B)>)
        ensures
            r.0 == (self.0, other.0),
    {
        Identity((self.0, other.0))
    }
}

impl<X, A, B> Functor<B> for Const<X, A> {
    type Elem = A;

    type Mapped = Const<X, B>;

    fn fmap<G: Fn(A) -> B>(self, f: G) -> (r: Const<X, B>)
        ensures
            r.0 == self.0,
    {
        Const(self.0, PhantomData)
    }
}

impl<X: Monoid, A> Applicative for Const<X, A> {
    type Elem = A;

    fn pure(a: A) -> (r: Const<X, A>)
        ensures
            r.0@ == X::spec_zero(),
    {
        Const(X::zero(), PhantomData)
    }
}

impl<X: Monoid, A, B> Apply<B> for Const<X, A> {
    type Other = Const<X, B>;

    type Paired = Const<X, (A, B)>;

    fn seq(self, other: Const<X, B>) -> (r: Const<X, (A, B)>)
        ensures
            r.0@ == X::spec_concat(self.0@, other.0@),
    {
        Const(X::concat(self.0, other.0), PhantomData)
    }
}

impl<A, B> Functor<B> for Vec<A> {
    type Elem = A;

    type Mapped = Vec<B>;

    fn fmap<G: Fn(A) -> B>(self, f: G) -> (r: Vec<B>)
        ensures
            r.len() == self.len(),
            forall|i: int| 0 <= i < self.len() ==> call_ensures(f, (self[i],), #[trigger] r[i]),
    {
        let ghost xs = self@;
        let mut r: Vec<B> = Vec::new();
        for x in it: self
            invariant
                it.seq() == xs,
                r.len() == it.index(),
                forall|j: int| 0 <= j < xs.len() ==> call_requires(f, (#[trigger] xs[j],)),
                forall|j: int| 0 <= j < r.len() ==> call_ensures(f, (xs[j],), #[trigger] r[j]),
        {
            r.push(f(x));
        }
        r
    }
}

} // verus!

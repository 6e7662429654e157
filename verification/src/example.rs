use vstd::prelude::*;

use crate::functor::{Const, Functor, Identity};
use crate::lens::{Lens, LensExt};
use crate::traversal::called_on;

verus! {

/// A point in the plane.
#[derive(Debug, Clone, Copy, PartialEq)]
pub struct Point {
    pub x: u32,
    pub y: u32,
}

/// An atom: a named element at a point.
#[derive(Debug, Clone, PartialEq)]
pub struct Atom {
    pub name: String,
    pub point: Point,
}

/// A molecule: a name and its atoms.
#[derive(Debug, Clone, PartialEq)]
pub struct Molecule {
    pub name: String,
    pub atoms: Vec<Atom>,
}

/// The model of an atom.
pub struct AtomModel {
    pub name: Seq<char>,
    pub point: Point,
}

/// The model of a molecule.
pub struct MoleculeModel {
    pub name: Seq<char>,
    pub atoms: Seq<AtomModel>,
}

impl DeepView for Point {
    type V = Point;

    open spec fn deep_view(&self) -> Point {
        *self
    }
}

impl DeepView for Atom {
    type V = AtomModel;

    open spec fn deep_view(&self) -> AtomModel {
        AtomModel { name: self.name@, point: self.point }
    }
}

impl DeepView for Molecule {
    type V = MoleculeModel;

    open spec fn deep_view(&self) -> MoleculeModel {
        MoleculeModel { name: self.name@, atoms: self.atoms.deep_view() }
    }
}

/// The lens onto the atoms of a molecule.
pub struct MoleculeAtoms;

/// The lens onto the point of an atom.
pub struct AtomPoint;

/// The lens onto the `x` coordinate of a point.
pub struct PointX;

impl Molecule {
    /// The lens onto the atoms.
    pub fn atoms() -> (r: MoleculeAtoms) {
        MoleculeAtoms
    }
}

impl Atom {
    /// The lens onto the point.
    pub fn point() -> (r: AtomPoint) {
        AtomPoint
    }

    /// The atom moved one step along `x`, through the composed lens.
    pub fn test1(self) -> (r: Atom)
        requires
            self.point.x < u32::MAX,
        ensures
            r.deep_view() == (AtomModel {
                name: self.name@,
                point: Point { x: (self.point.x + 1) as u32, y: self.point.y },
            }),
    {
        let l = Atom::point().and(Point::x());
        let step = |x: u32| -> (y: u32)
            requires
                x < u32::MAX,
            ensures
                y == x + 1,
            { x + 1 };
        l.over(self, step)
    }

    /// The atom moved one step along `x`, by hand.
    pub fn test2(self) -> (r: Atom)
        requires
            self.point.x < u32::MAX,
        ensures
            r.deep_view() == (AtomModel {
                name: self.name@,
                point: Point { x: (self.point.x + 1) as u32, y: self.point.y },
            }),
    {
        Atom { point: Point { x: self.point.x + 1, y: self.point.y }, name: self.name }
    }
}

impl Point {
    /// The lens onto the `x` coordinate.
    pub fn x() -> (r: PointX) {
        PointX
    }
}

impl Lens for MoleculeAtoms {
    type A = Molecule;

    type B = Vec<Atom>;

    open spec fn view_get(&self, a: MoleculeModel) -> Seq<AtomModel> {
        a.atoms
    }

    open spec fn view_set(&self, a: MoleculeModel, b: Seq<AtomModel>) -> MoleculeModel {
        MoleculeModel { name: a.name, atoms: b }
    }

    proof fn lemma_get_set(&self, a: MoleculeModel, b: Seq<AtomModel>) {
    }

    proof fn lemma_set_get(&self, a: MoleculeModel) {
    }

    proof fn lemma_set_set(&self, a: MoleculeModel, b1: Seq<AtomModel>, b2: Seq<AtomModel>) {
    }

    fn f_const<X, K: Fn(Vec<Atom>) -> Const<X, Vec<Atom>>>(&self, k: &K, a: Molecule) -> (r: Const<
        X,
        Molecule,
    >) {
        let ghost ag = a.deep_view();
        let Molecule { name, atoms } = a;
        assert(seq![atoms.deep_view()][0] == atoms.deep_view());
        assert(seq![atoms.deep_view()].contains(atoms.deep_view()));
        let c = k(atoms);
        let ghost cg = c;
        assert(called_on(*k, ag.atoms, cg));
        c.fmap(move |new_atoms: Vec<Atom>| Molecule { atoms: new_atoms, name: name.clone() })
    }

    fn f_identity<K: Fn(Vec<Atom>) -> Identity<Vec<Atom>>>(&self, k: &K, a: Molecule) -> (r:
        Identity<Molecule>) {
        let ghost ag = a.deep_view();
        let Molecule { name, atoms } = a;
        assert(seq![atoms.deep_view()][0] == atoms.deep_view());
        assert(seq![atoms.deep_view()].contains(atoms.deep_view()));
        let c = k(atoms);
        let ghost cg = c;
        assert(called_on(*k, ag.atoms, cg));
        let rebuild = move |new_atoms: Vec<Atom>| -> (m: Molecule)
            ensures
                m.deep_view() == (MoleculeModel { name: name@, atoms: new_atoms.deep_view() }),
            { Molecule { atoms: new_atoms, name: name.clone() } };
        c.fmap(rebuild)
    }
}

impl Lens for AtomPoint {
    type A = Atom;

    type B = Point;

    open spec fn view_get(&self, a: AtomModel) -> Point {
        a.point
    }

    open spec fn view_set(&self, a: AtomModel, b: Point) -> AtomModel {
        AtomModel { name: a.name, point: b }
    }

    proof fn lemma_get_set(&self, a: AtomModel, b: Point) {
    }

    proof fn lemma_set_get(&self, a: AtomModel) {
    }

    proof fn lemma_set_set(&self, a: AtomModel, b1: Point, b2: Point) {
    }

    fn f_const<X, K: Fn(Point) -> Const<X, Point>>(&self, k: &K, a: Atom) -> (r: Const<X, Atom>) {
        let ghost ag = a.deep_view();
        let Atom { name, point } = a;
        assert(seq![point.deep_view()][0] == point.deep_view());
        assert(seq![point.deep_view()].contains(point.deep_view()));
        let c = k(point);
        let ghost cg = c;
        assert(called_on(*k, ag.point, cg));
        c.fmap(move |new_point: Point| Atom { point: new_point, name: name.clone() })
    }

    fn f_identity<K: Fn(Point) -> Identity<Point>>(&self, k: &K, a: Atom) -> (r: Identity<Atom>) {
        let ghost ag = a.deep_view();
        let Atom { name, point } = a;
        assert(seq![point.deep_view()][0] == point.deep_view());
        assert(seq![point.deep_view()].contains(point.deep_view()));
        let c = k(point);
        let ghost cg = c;
        assert(called_on(*k, ag.point, cg));
        let rebuild = move |new_point: Point| -> (m: Atom)
            ensures
                m.deep_view() == (AtomModel { name: name@, point: new_point }),
            { Atom { point: new_point, name: name.clone() } };
        c.fmap(rebuild)
    }
}

impl Lens for PointX {
    type A = Point;

    type B = u32;

    open spec fn view_get(&self, a: Point) -> u32 {
        a.x
    }

    open spec fn view_set(&self, a: Point, b: u32) -> Point {
        Point { x: b, y: a.y }
    }

    proof fn lemma_get_set(&self, a: Point, b: u32) {
    }

    proof fn lemma_set_get(&self, a: Point) {
    }

    proof fn lemma_set_set(&self, a: Point, b1: u32, b2: u32) {
    }

    fn f_const<X, K: Fn(u32) -> Const<X, u32>>(&self, k: &K, a: Point) -> (r: Const<X, Point>) {
        assert(seq![a.x.deep_view()][0] == a.x.deep_view());
        assert(seq![a.x.deep_view()].contains(a.x.deep_view()));
        let c = k(a.x);
        let ghost cg = c;
        assert(called_on(*k, a.x, cg));
        c.fmap(move |new_x: u32| Point { x: new_x, y: a.y })
    }

    fn f_identity<K: Fn(u32) -> Identity<u32>>(&self, k: &K, a: Point) -> (r: Identity<Point>) {
        assert(seq![a.x.deep_view()][0] == a.x.deep_view());
        assert(seq![a.x.deep_view()].contains(a.x.deep_view()));
        let c = k(a.x);
        let ghost cg = c;
        assert(called_on(*k, a.x, cg));
        let rebuild = move |new_x: u32| -> (p: Point)
            ensures
                p == (Point { x: new_x, y: a.y }),
            { Point { x: new_x, y: a.y } };
        c.fmap(rebuild)
    }
}

} // verus!

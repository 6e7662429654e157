use std::marker::PhantomData;

use lenses::{
    elems, idx, Atom, Compose, Const, Functor, Identity, IdentityLens, Leftmost, Lens, LensExt,
    Lift, LiftPrism, Molecule, Monoid, Point, PrismExt, Traversal, TraversalExt, TyEq,
};

fn water() -> Molecule {
    Molecule {
        name: "water".to_string(),
        atoms: vec![
            Atom { name: "hydrogen".to_string(), point: Point { x: 0, y: 0 } },
            Atom { name: "hydrogen".to_string(), point: Point { x: 1, y: 1 } },
            Atom { name: "oxygen".to_string(), point: Point { x: 2, y: 2 } },
        ],
    }
}

fn helium() -> Atom {
    Atom { name: "helium".to_string(), point: Point { x: 1, y: 1 } }
}

#[test]
fn getter_reads_the_point_of_an_atom() {
    let p = Atom::point().getter(helium());
    assert_eq!((p.x, p.y), (1, 1));
}

#[test]
fn composed_getter_reads_x() {
    assert_eq!(Atom::point().and(Point::x()).getter(helium()), 1);
}

#[test]
fn composed_over_shifts_x_and_keeps_the_rest() {
    let shifted = Atom::point().and(Point::x()).over(helium(), |x| x + 1);
    assert_eq!(shifted.name, "helium");
    assert_eq!((shifted.point.x, shifted.point.y), (2, 1));
}

#[test]
fn test1_and_test2_agree() {
    let a = helium().test1();
    let b = helium().test2();
    assert_eq!(a.name, b.name);
    assert_eq!((a.point.x, a.point.y), (b.point.x, b.point.y));
    assert_eq!((a.point.x, a.point.y), (2, 1));
}

#[test]
fn molecule_atoms_lens_reads_and_replaces_the_atoms() {
    let atoms = Molecule::atoms().getter(water());
    assert_eq!(atoms.len(), 3);
    assert_eq!(atoms[2].name, "oxygen");
    let emptied = Molecule::atoms().over(water(), |_| Vec::new());
    assert_eq!(emptied.name, "water");
    assert!(emptied.atoms.is_empty());
}

#[test]
fn shifting_all_x_coordinates_of_water() {
    let molecule_x_coords = Molecule::atoms().all(elems()).and(Atom::point()).and(Point::x());
    let shifted = molecule_x_coords.over(water(), |x| x + 1);
    assert_eq!(shifted.name, "water");
    let names: Vec<&str> = shifted.atoms.iter().map(|a| a.name.as_str()).collect();
    assert_eq!(names, vec!["hydrogen", "hydrogen", "oxygen"]);
    let ys: Vec<u32> = shifted.atoms.iter().map(|a| a.point.y).collect();
    assert_eq!(ys, vec![0, 1, 2]);
    assert_eq!(molecule_x_coords.t_to_vec(shifted), vec![1, 2, 3]);
}

#[test]
fn elems_lists_and_updates_every_element() {
    let t = elems::<u32>();
    assert_eq!(t.t_to_vec(vec![3, 1, 2]), vec![3, 1, 2]);
    assert_eq!(t.over(vec![3, 1, 2], |x| x * 10), vec![30, 10, 20]);
    assert_eq!(t.t_to_vec(Vec::new()), Vec::<u32>::new());
}

#[test]
fn over_with_identity_changes_nothing_on_elements() {
    let t = elems::<u32>();
    assert_eq!(t.over(vec![5, 6, 7], |x| x), vec![5, 6, 7]);
    let shifted = Molecule::atoms().all(elems()).and(Atom::point()).and(Point::x()).over(water(), |x| x);
    let xs: Vec<u32> = shifted.atoms.iter().map(|a| a.point.x).collect();
    assert_eq!(xs, vec![0, 1, 2]);
}

#[test]
fn position_prism_reads_at_most_one_element() {
    let p = idx::<u32>(1);
    assert_eq!(p.t_to_opt(vec![7, 8, 9]), Some(8));
    assert_eq!(p.t_to_opt(vec![7]), None);
    assert_eq!(TraversalExt::t_to_vec(&p, vec![7, 8, 9]), vec![8]);
    assert_eq!(TraversalExt::t_to_vec(&p, vec![]), Vec::<u32>::new());
}

#[test]
fn position_prism_update_replaces_the_element() {
    let p = idx::<u32>(1);
    assert_eq!(TraversalExt::over(&p, vec![7, 8, 9], |x| x + 100), vec![7, 108, 9]);
    assert_eq!(TraversalExt::over(&p, vec![7], |x| x + 100), vec![7]);
    assert_eq!(TraversalExt::over(&idx::<u32>(0), vec![1], |x| x), vec![1]);
}

#[test]
fn lift_prism_always_finds_its_part() {
    let p = LiftPrism(Point::x());
    assert_eq!(p.t_to_opt(Point { x: 4, y: 5 }), Some(4));
    let moved = TraversalExt::over(&p, Point { x: 4, y: 5 }, |x| x * 2);
    assert_eq!((moved.x, moved.y), (8, 5));
}

#[test]
fn lift_turns_a_lens_into_a_single_part_traversal() {
    let t = Lift(Atom::point());
    let v = t.t_to_vec(helium());
    assert_eq!(v.len(), 1);
    assert_eq!((v[0].x, v[0].y), (1, 1));
}

#[test]
fn identity_lens_focuses_on_the_whole() {
    let l = IdentityLens::<u32>(PhantomData);
    assert_eq!(l.getter(9), 9);
    assert_eq!(l.over(9, |x| x + 1), 10);
}

#[test]
fn prism_then_lens_and_prism_then_prism() {
    let p = PrismExt::and(idx::<Point>(0), Point::x());
    assert_eq!(p.t_to_opt(vec![Point { x: 3, y: 4 }]), Some(3));
    assert_eq!(p.t_to_opt(vec![]), None);
    let q = idx::<Vec<u32>>(1).and_if(idx::<u32>(0));
    assert_eq!(q.t_to_opt(vec![vec![1], vec![2, 3]]), Some(2));
    assert_eq!(q.t_to_opt(vec![vec![1], vec![]]), None);
    let r = PrismExt::all(idx::<Vec<u32>>(0), idx::<u32>(1));
    assert_eq!(TraversalExt::t_to_vec(&r, vec![vec![5, 6]]), vec![6]);
}

#[test]
fn traversal_then_traversal() {
    let t = elems::<Vec<u32>>().all(elems::<u32>());
    assert_eq!(t.t_to_vec(vec![vec![1, 2], vec![], vec![3]]), vec![1, 2, 3]);
    assert_eq!(t.over(vec![vec![1, 2], vec![], vec![3]], |x| x + 1), vec![vec![2, 3], vec![], vec![4]]);
    let u = TraversalExt::and(elems::<Point>(), Point::x());
    assert_eq!(u.t_to_vec(vec![Point { x: 1, y: 0 }, Point { x: 2, y: 0 }]), vec![1, 2]);
}

#[test]
fn running_a_lens_in_the_functors_directly() {
    let c: Const<u32, Point> = Point::x().f_const(&|x: u32| Const(x * 3, PhantomData), Point { x: 2, y: 0 });
    assert_eq!(c.0, 6);
    let i = Point::x().f_identity(&|x: u32| Identity(x + 5), Point { x: 2, y: 7 });
    assert_eq!((i.0.x, i.0.y), (7, 7));
    let folded: Const<Vec<u32>, Vec<u32>> =
        elems::<u32>().f_const(&|x: u32| Const(vec![x, x], PhantomData), vec![1, 2]);
    assert_eq!(folded.0, vec![1, 1, 2, 2]);
    let composed = Compose(Atom::point(), Point::x()).f_identity(&|x: u32| Identity(x + 1), helium());
    assert_eq!(composed.0.point.x, 2);
}

#[test]
fn monoid_laws_on_vectors_and_leftmost() {
    assert_eq!(<Vec<u32> as Monoid>::concat(vec![1], vec![2, 3]), vec![1, 2, 3]);
    assert_eq!(<Vec<u32> as Monoid>::concat(<Vec<u32> as Monoid>::zero(), vec![4]), vec![4]);
    let l = <Leftmost<u32> as Monoid>::concat(Leftmost::Nothing, Leftmost::Found(3));
    assert_eq!(l.to_opt(), Some(3));
    let l = <Leftmost<u32> as Monoid>::concat(Leftmost::Found(1), Leftmost::Found(3));
    assert_eq!(l.to_opt(), Some(1));
    assert_eq!(<Leftmost<u32> as Monoid>::zero().to_opt(), None);
}

#[test]
fn functor_maps_identity_and_ignores_const() {
    let i: Identity<u32> = Identity(3u32).fmap(|x: u32| x + 1);
    assert_eq!(i.0, 4);
    let c: Const<&str, u32> = Const::<&str, u32>("kept", PhantomData).fmap(|x: u32| x + 1);
    assert_eq!(c.0, "kept");
}

#[test]
fn ty_eq_is_the_identity() {
    assert_eq!(<u32 as TyEq<u32>>::rw(5), 5);
    assert_eq!(<u32 as TyEq<u32>>::rwi(6), 6);
}

#[test]
fn lens_reads_after_writes() {
    let moved = Atom::point().over(helium(), |_| Point { x: 8, y: 9 });
    let p = Atom::point().getter(moved);
    assert_eq!((p.x, p.y), (8, 9));
}

#[test]
fn functor_maps_every_element_of_a_vector() {
    let v: Vec<u32> = vec![1u32, 2, 3].fmap(|x: u32| x * 2);
    assert_eq!(v, vec![2, 4, 6]);
    let e: Vec<String> = Vec::<u32>::new().fmap(|x: u32| x.to_string());
    assert!(e.is_empty());
}

#[test]
fn composing_lenses_is_associative() {
    let left = Atom::point().and(Point::x()).and(IdentityLens::<u32>(PhantomData));
    let right = Atom::point().and(Point::x().and(IdentityLens::<u32>(PhantomData)));
    assert_eq!(left.getter(helium()), right.getter(helium()));
    let a = left.over(helium(), |x| x + 41);
    let b = right.over(helium(), |x| x + 41);
    assert_eq!(a, b);
    assert_eq!(a.point.x, 42);
}

#[test]
fn lens_set_twice_keeps_the_second() {
    let once = Atom::point().over(helium(), |_| Point { x: 3, y: 3 });
    let twice = Atom::point().over(once, |_| Point { x: 4, y: 5 });
    assert_eq!(twice, Atom::point().over(helium(), |_| Point { x: 4, y: 5 }));
}

#[test]
fn lens_setting_what_is_there_changes_nothing() {
    let p = Atom::point().getter(helium());
    assert_eq!(Atom::point().over(helium(), |_| p), helium());
}

#[test]
fn position_prism_works_on_any_element_type() {
    let p = PrismExt::and(idx::<Atom>(2), Atom::point());
    let found = p.t_to_opt(water().atoms).unwrap();
    assert_eq!((found.x, found.y), (2, 2));
    let moved = TraversalExt::over(&p, water().atoms, |_| Point { x: 9, y: 9 });
    assert_eq!(moved.len(), 3);
    assert_eq!(moved[2].point, Point { x: 9, y: 9 });
    assert_eq!(moved[2].name, "oxygen");
}

#[test]
fn composed_lens_update_is_the_nested_update() {
    let composed = Atom::point().and(Point::x()).over(helium(), |x| x * 7);
    let nested = Atom::point().over(helium(), |p| Point::x().over(p, |x| x * 7));
    assert_eq!(composed, nested);
    assert_eq!(
        Atom::point().and(Point::x()).getter(helium()),
        Point::x().getter(Atom::point().getter(helium()))
    );
}

#[test]
fn composed_traversal_update_is_the_nested_update() {
    let v = vec![vec![1u32, 2], vec![], vec![3]];
    let composed = elems::<Vec<u32>>().all(elems::<u32>()).over(v.clone(), |x| x + 10);
    let nested = elems::<Vec<u32>>().over(v.clone(), |inner| elems::<u32>().over(inner, |x| x + 10));
    assert_eq!(composed, nested);
    let flat: Vec<u32> = elems::<Vec<u32>>()
        .t_to_vec(v.clone())
        .into_iter()
        .flat_map(|inner| elems::<u32>().t_to_vec(inner))
        .collect();
    assert_eq!(elems::<Vec<u32>>().all(elems::<u32>()).t_to_vec(v), flat);
}

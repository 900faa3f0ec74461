use gchemol_core::molecule::Molecule;
use gchemol_core::{Atom, Bond, Freezing, Point3};

fn pt(x: f64, y: f64, z: f64) -> Point3 {
    Point3 { x: x.to_bits(), y: y.to_bits(), z: z.to_bits() }
}

#[test]
fn set_positions_zips_with_ascending_serials() {
    let mut mol = Molecule::new("m");
    mol.add_atoms_from(vec![(9, Atom::default()), (2, Atom::default()), (4, Atom::default())]);
    assert_eq!(mol.serial_numbers(), vec![2, 4, 9]);
    mol.set_positions(&[pt(1.0, 0.0, 0.0), pt(2.0, 0.0, 0.0)]);
    let ps = mol.positions();
    assert_eq!(ps, vec![pt(1.0, 0.0, 0.0), pt(2.0, 0.0, 0.0), Point3 { x: 0, y: 0, z: 0 }]);
    mol.set_positions(&[pt(5.0, 5.0, 5.0), pt(6.0, 6.0, 6.0), pt(7.0, 7.0, 7.0), pt(8.0, 8.0, 8.0)]);
    assert_eq!(mol.positions(), vec![pt(5.0, 5.0, 5.0), pt(6.0, 6.0, 6.0), pt(7.0, 7.0, 7.0)]);
}

#[test]
fn update_positions_keeps_frozen_coordinates() {
    let mut a = Atom::default();
    a.set_freezing(Freezing { x: false, y: true, z: false });
    let mut mol = Molecule::new("m");
    mol.add_atom(1, a);
    mol.add_atom(2, Atom::default());
    mol.update_positions(&[pt(1.0, 2.0, 3.0), pt(4.0, 5.0, 6.0)]);
    assert_eq!(mol.positions(), vec![pt(1.0, 0.0, 3.0), pt(4.0, 5.0, 6.0)]);
    mol.set_positions(&[pt(1.0, 2.0, 3.0)]);
    assert_eq!(mol.positions()[0], pt(1.0, 2.0, 3.0));
}

#[test]
fn set_positions_from_and_symbols() {
    let mut mol = Molecule::from_atoms(vec![Atom::default(), Atom::default(), Atom::default()]);
    mol.set_positions_from(&[(3, pt(1.0, 1.0, 1.0)), (1, pt(2.0, 2.0, 2.0)), (3, pt(3.0, 3.0, 3.0))]);
    assert_eq!(mol.positions(), vec![pt(2.0, 2.0, 2.0), Point3 { x: 0, y: 0, z: 0 }, pt(3.0, 3.0, 3.0)]);
    mol.set_symbols(&["H", "O"]);
    assert_eq!(mol.symbols(), vec!["H", "O", "C"]);
    assert_eq!(mol.formula(), "COH");
}

#[test]
fn bulk_bonds_and_removal() {
    let mut mol = Molecule::from_atoms(vec![Atom::default(), Atom::default(), Atom::default(), Atom::default()]);
    mol.add_bonds_from(&[(1, 2, Bond::single()), (2, 3, Bond::double()), (3, 4, Bond::single()), (2, 1, Bond::triple())]);
    assert_eq!(mol.nbonds(), 3);
    assert_eq!(*mol.get_bond(1, 2).unwrap(), Bond::triple());
    mol.remove_bonds_from(&[(4, 3), (1, 4)]);
    assert_eq!(mol.nbonds(), 2);
    assert!(mol.get_bond(3, 4).is_none());
    mol.remove_atoms_from(&[2, 7, 2]);
    assert_eq!(mol.serial_numbers(), vec![1, 3, 4]);
    assert_eq!(mol.nbonds(), 0);
}

#[test]
fn default_molecule_is_empty() {
    let mol = Molecule::default();
    assert_eq!(mol.natoms(), 0);
    assert_eq!(mol.title(), "untitled");
    assert_eq!(mol.formula(), "");
    assert!(mol.lattice.is_none());
}

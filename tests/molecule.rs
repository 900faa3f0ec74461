use gchemol_core::molecule::Molecule;
use gchemol_core::{Atom, Bond, BondKind, Freezing, Point3};

#[test]
fn test() {
    let mut mol = Molecule::new("test");

    for i in 0..5 {
        mol.add_atom(i, Atom::default());
    }
    assert_eq!(mol.natoms(), 5);

    mol.add_bond(1, 2, Bond::single());
    mol.add_bond(2, 3, Bond::double());
    assert_eq!(mol.nbonds(), 2);
    mol.add_bond(2, 1, Bond::single());
    assert_eq!(mol.nbonds(), 2);

    for (i, a) in mol.atoms() {
        println!("{} {}", i, a.symbol());
    }

    // set title
    mol.set_title("new mol");
    mol.set_title(&format!("Molecule: {}", 4));
}

#[test]
fn readd_replaces_atom() {
    let mut mol = Molecule::new("m");
    mol.add_atom(5, Atom::new("C", 6));
    mol.add_atom(5, Atom::new("N", 7));
    assert_eq!(mol.natoms(), 1);
    assert_eq!(mol.get_atom(5).unwrap().symbol(), "N");
    assert!(mol.get_atom(4).is_none());
}

#[test]
fn atoms_ascending_and_restartable() {
    let mut mol = Molecule::new("m");
    mol.add_atom(5, Atom::new("O", 8));
    mol.add_atom(1, Atom::new("C", 6));
    mol.add_atom(3, Atom::new("H", 1));
    let first: Vec<usize> = mol.atoms().iter().map(|p| p.0).collect();
    assert_eq!(first, vec![1, 3, 5]);
    let second: Vec<usize> = mol.atoms().iter().map(|p| p.0).collect();
    assert_eq!(first, second);
    assert_eq!(mol.serial_numbers(), vec![1, 3, 5]);
    assert_eq!(mol.symbols(), vec!["C", "H", "O"]);
    assert_eq!(mol.atomic_numbers(), vec![6, 1, 8]);
    assert_eq!(mol.numbers(), vec![6, 1, 8]);
    assert_eq!(mol.formula(), "COH");
}

#[test]
fn title_fallback() {
    let mut mol = Molecule::new("x");
    mol.set_title("");
    assert_eq!(mol.title(), "untitled");
    mol.set_title("  My Mol \nSecondLine");
    assert_eq!(mol.title(), "My Mol");
    mol.set_title("   \n  second ");
    assert_eq!(mol.title(), "second");
}

#[test]
fn clear_empties_and_is_idempotent() {
    let mut mol = Molecule::from_atoms(vec![Atom::default(), Atom::default(), Atom::default()]);
    mol.add_bond(1, 2, Bond::single());
    mol.clear();
    assert_eq!(mol.natoms(), 0);
    assert_eq!(mol.nbonds(), 0);
    assert!(mol.serial_numbers().is_empty());
    mol.clear();
    assert_eq!(mol.natoms(), 0);
    assert_eq!(mol.nbonds(), 0);
    mol.add_atom(1, Atom::default());
    mol.add_atom(2, Atom::default());
    assert!(mol.get_bond(1, 2).is_none());
    assert_eq!(mol.nbonds(), 0);
}

#[test]
fn from_atoms_numbers_from_one() {
    let mol = Molecule::from_atoms(vec![Atom::new("C", 6), Atom::new("H", 1), Atom::new("H", 1)]);
    assert_eq!(mol.serial_numbers(), vec![1, 2, 3]);
    assert_eq!(mol.formula(), "CH2");
    assert_eq!(mol.reduced_symbols(), vec![("C".to_string(), 1), ("H".to_string(), 2)]);
}

#[test]
fn remove_atom_and_bonds() {
    let mut mol = Molecule::from_atoms(vec![Atom::default(), Atom::default(), Atom::default()]);
    mol.add_bond(1, 2, Bond::single());
    mol.add_bond(2, 3, Bond::double());
    assert_eq!(mol.get_bond(3, 2).unwrap().kind(), BondKind::Double);
    assert_eq!(mol.remove_bond(1, 3), None);
    assert_eq!(mol.remove_bond(2, 1), Some(Bond::single()));
    assert_eq!(mol.nbonds(), 1);
    let removed = mol.remove_atom(3).unwrap();
    assert_eq!(removed.symbol(), "C");
    assert!(mol.remove_atom(3).is_none());
    assert_eq!(mol.natoms(), 2);
    assert_eq!(mol.nbonds(), 0);
    assert!(mol.bonds().is_empty());
    // a reused node must not bring back a stale bond
    mol.add_atom(7, Atom::new("O", 8));
    assert!(mol.get_bond(2, 7).is_none());
    mol.add_bond(7, 1, Bond::triple());
    let bonds = mol.bonds();
    assert_eq!(bonds.len(), 1);
    let (a, b, k) = bonds[0];
    assert!((a, b) == (1, 7) || (a, b) == (7, 1));
    assert_eq!(k, Bond::triple());
}

#[test]
fn positions_and_symbols() {
    let mut mol = Molecule::from_atoms(vec![Atom::default(), Atom::default()]);
    let p = Point3 { x: 1.5f64.to_bits(), y: 2.0f64.to_bits(), z: (-3.0f64).to_bits() };
    mol.set_position(2, p);
    assert_eq!(mol.positions()[1], p);
    assert_eq!(f64::from_bits(mol.positions()[1].z), -3.0);
    assert_eq!(mol.positions()[0], Point3 { x: 0, y: 0, z: 0 });
    mol.set_symbol(1, "Si");
    assert_eq!(mol.symbols(), vec!["Si", "C"]);
    let mut a = Atom::default();
    a.set_freezing(Freezing { x: true, y: false, z: false });
    a.update_position(p);
    assert_eq!(a.position(), Point3 { x: 0, y: p.y, z: p.z });
}

#[test]
fn mutable_access() {
    let mut mol = Molecule::from_atoms(vec![Atom::default(), Atom::default()]);
    mol.add_bond(1, 2, Bond::single());
    mol.get_atom_mut(2).unwrap().set_symbol("N");
    assert_eq!(mol.symbols(), vec!["C", "N"]);
    assert!(mol.get_atom_mut(3).is_none());
    *mol.get_bond_mut(2, 1).unwrap() = Bond::aromatic();
    assert_eq!(mol.get_bond(1, 2).unwrap().kind(), BondKind::Aromatic);
    assert!(mol.get_bond_mut(1, 1).is_none());
    assert!(mol.get_bond_mut(1, 5).is_none());
    assert_eq!(mol.nbonds(), 1);
}

#[test]
fn from_graph_numbers_nodes_in_order() {
    let mut g: gchemol_graph::NxGraph<Atom, Bond> = gchemol_graph::NxGraph::new();
    let n1 = g.add_node(Atom::new("O", 8));
    let _n2 = g.add_node(Atom::new("H", 1));
    let n3 = g.add_node(Atom::new("H", 1));
    g.add_edge(n3, n1, Bond::single());
    let mol = Molecule::from_graph(g);
    assert_eq!(mol.serial_numbers(), vec![1, 2, 3]);
    assert_eq!(mol.symbols(), vec!["O", "H", "H"]);
    assert_eq!(mol.nbonds(), 1);
    assert_eq!(*mol.get_bond(1, 3).unwrap(), Bond::single());
    assert!(mol.get_bond(1, 2).is_none());
    assert_eq!(mol.formula(), "OH2");
}

#[test]
fn title_trims_unicode_white_space_and_crlf() {
    let mut mol = Molecule::new("\u{a0}\t Benzene\u{3000}\r\nsecond");
    assert_eq!(mol.title(), "Benzene");
    mol.set_title(" \r\n\r\n  x y \r\n");
    assert_eq!(mol.title(), "x y");
    mol.set_title("\n\n \t\n");
    assert_eq!(mol.title(), "untitled");
}

#[test]
fn from_atoms_is_untitled() {
    let mol = Molecule::from_atoms(vec![Atom::default()]);
    assert_eq!(mol.title(), "untitled");
    assert_eq!(mol.natoms(), 1);
    assert_eq!(mol.nbonds(), 0);
}

#[test]
fn into_graph_round_trip() {
    let mut mol = Molecule::from_atoms(vec![Atom::new("C", 6), Atom::new("O", 8), Atom::new("O", 8)]);
    mol.add_bond(1, 2, Bond::double());
    mol.add_bond(3, 1, Bond::double());
    mol.remove_atom(2);
    let g = mol.into_graph();
    assert_eq!(g.number_of_nodes(), 2);
    assert_eq!(g.number_of_edges(), 1);
    let back = Molecule::from_graph(g);
    assert_eq!(back.serial_numbers(), vec![1, 2]);
    assert_eq!(back.formula(), "CO");
    assert_eq!(*back.get_bond(1, 2).unwrap(), Bond::double());
}

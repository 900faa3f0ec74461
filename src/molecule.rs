//! A molecule: atoms and bonds held in a graph and addressed by serial numbers.
use vstd::prelude::*;
use vstd::relations::injective_on;
use vstd::set_lib::{lemma_len_subset, lemma_map_size};
use bimap::BiHashMap;
use gchemol_graph::NxGraph;
use gchemol_lattice::Lattice;
use crate::atom::{updated_position, Atom, Bond, Point3};
use crate::order::{ascending, insert_in_order, lemma_listing_unique, lists_in_order};
use crate::title::{pick_title, split_lines, title_of, trim_text, trimmed, lines_of};
use crate::formula::{counts_view, formula_of, get_reduced_formula, get_reduced_symbols, reduced};
use crate::graph::{
    add_edge, add_node, clear_graph, edge_count, edge_list, edge_mut, edge_ref, graph_edge_order, graph_edges,
    graph_nodes, graph_pairs_indexed, has_edge, new_graph, node_count, node_list, node_mut, node_ref, pair,
    remove_edge, remove_node, MAX_EDGES, MAX_NODES,
};
use crate::serials::{
    clear_index, insert_new, left_of, left_values, new_index, remove_left, right_of, serial_pairs,
};

verus! {

#[verifier::external_type_specification]
#[verifier::external_body]
pub struct ExLattice(Lattice);

/// A molecular entity: atoms, each under a serial number of the caller's
/// choice, and bonds between pairs of them.
#[derive(Debug)]
pub struct Molecule {
    /// Crystalline lattice, for a structure under periodic boundary conditions.
    pub lattice: Option<Lattice>,
    name: String,
    graph: NxGraph<Atom, Bond>,
    mapping: BiHashMap<usize, usize>,
}

/// The node that serial number `s` stands for, within `h`.
pub open spec fn serial_of(h: Map<usize, usize>, n: usize) -> usize {
    choose|s: usize| h.contains_key(s) && h[s] == n
}

/// A change to the atoms of a molecule: `add_atom`, `remove_atom` or `clear`.
pub enum AtomEdit {
    Add(usize, Atom),
    Remove(usize),
    Clear,
}

/// The atoms after one edit, as the contracts of `add_atom`, `remove_atom`
/// and `clear` state it.
pub open spec fn apply_edit(m: Map<usize, Atom>, e: AtomEdit) -> Map<usize, Atom> {
    match e {
        AtomEdit::Add(s, a) => m.insert(s, a),
        AtomEdit::Remove(s) => m.remove(s),
        AtomEdit::Clear => Map::empty(),
    }
}

/// The atoms after the edits `es`, in order.
pub open spec fn apply_edits(m: Map<usize, Atom>, es: Seq<AtomEdit>) -> Map<usize, Atom>
    decreases es.len(),
{
    if es.len() == 0 {
        m
    } else {
        apply_edit(apply_edits(m, es.drop_last()), es.last())
    }
}

/// Whether an edit can change the atom under serial number `sn`.
pub open spec fn touches(e: AtomEdit, sn: usize) -> bool {
    match e {
        AtomEdit::Add(s, _) => s == sn,
        AtomEdit::Remove(s) => s == sn,
        AtomEdit::Clear => true,
    }
}

/// A serial number resolves to the atom last added under it: after any edits,
/// where the last edit that touches `sn` adds `x` under it, the atom there is
/// `x`; where it removes `sn` or clears the molecule, there is none.
pub proof fn lemma_last_add_wins(m: Map<usize, Atom>, es: Seq<AtomEdit>, i: int, sn: usize)
    requires
        0 <= i < es.len(),
        touches(es[i], sn),
        forall|j: int| i < j < es.len() ==> !touches(#[trigger] es[j], sn),
    ensures
        match es[i] {
            AtomEdit::Add(_, x) => apply_edits(m, es).contains_key(sn) && apply_edits(m, es)[sn] == x,
            _ => !apply_edits(m, es).contains_key(sn),
        },
    decreases es.len(),
{
    let t = es.drop_last();
    if i < es.len() - 1 {
        assert forall|j: int| i < j < t.len() implies !touches(#[trigger] t[j], sn) by {
            assert(t[j] == es[j]);
        }
        assert(t[i] == es[i]);
        lemma_last_add_wins(m, t, i, sn);
        assert(!touches(es[es.len() - 1], sn));
    }
}

/// Adding an atom under a serial number that is taken replaces the atom and
/// leaves the number of atoms as it was.
pub proof fn lemma_readd_replaces(atoms: Map<usize, Atom>, s: usize, x: Atom, y: Atom)
    requires
        atoms.dom().finite(),
    ensures
        atoms.insert(s, x).insert(s, y) == atoms.insert(s, y),
        atoms.insert(s, x).insert(s, y)[s] == y,
        atoms.insert(s, x).insert(s, y).len() == atoms.insert(s, x).len(),
{
    assert(atoms.insert(s, x).insert(s, y) =~= atoms.insert(s, y));
    assert(atoms.insert(s, x).dom().insert(s) =~= atoms.insert(s, x).dom());
}

/// A bond is keyed by its unordered pair of atoms: adding it again with the
/// end atoms swapped replaces it and adds no bond.
pub proof fn lemma_bond_pair_symmetric(bonds: Map<(usize, usize), Bond>, a: usize, b: usize, x: Bond, y: Bond)
    requires
        bonds.dom().finite(),
    ensures
        pair(a, b) == pair(b, a),
        bonds.insert(pair(a, b), x).insert(pair(b, a), y) == bonds.insert(pair(a, b), y),
        bonds.insert(pair(a, b), x).insert(pair(b, a), y).len() == bonds.insert(pair(a, b), x).len(),
{
    assert(bonds.insert(pair(a, b), x).insert(pair(b, a), y) =~= bonds.insert(pair(a, b), y));
    assert(bonds.insert(pair(a, b), x).dom().insert(pair(a, b)) =~= bonds.insert(pair(a, b), x).dom());
}

/// An atom moved to `p`.
pub open spec fn with_position(a: Atom, p: Point3) -> Atom {
    Atom { symbol: a.symbol, number: a.number, position: p, freezing: a.freezing }
}

/// An atom moved towards `p`, its frozen coordinates kept.
pub open spec fn with_update(a: Atom, p: Point3) -> Atom {
    Atom {
        symbol: a.symbol,
        number: a.number,
        position: updated_position(a.position, p, a.freezing),
        freezing: a.freezing,
    }
}

/// The atoms after each `(serial, position)` of `ps` is applied in order.
pub open spec fn positions_applied(m: Map<usize, Atom>, ps: Seq<(usize, Point3)>) -> Map<usize, Atom>
    decreases ps.len(),
{
    if ps.len() == 0 {
        m
    } else {
        let m2 = positions_applied(m, ps.drop_last());
        m2.insert(ps.last().0, with_position(m2[ps.last().0], ps.last().1))
    }
}

/// The atoms after each `(serial, atom)` of `xs` is added in order.
pub open spec fn atoms_added(m: Map<usize, Atom>, xs: Seq<(usize, Atom)>) -> Map<usize, Atom>
    decreases xs.len(),
{
    if xs.len() == 0 {
        m
    } else {
        atoms_added(m, xs.drop_last()).insert(xs.last().0, xs.last().1)
    }
}

/// The serial numbers after adding `xs`: those there before and those listed.
proof fn lemma_atoms_added_dom(m: Map<usize, Atom>, xs: Seq<(usize, Atom)>)
    requires
        m.dom().finite(),
    ensures
        atoms_added(m, xs).dom().finite(),
        forall|s: usize| #[trigger] atoms_added(m, xs).contains_key(s) <==>
            (m.contains_key(s) || exists|i: int| 0 <= i < xs.len() && xs[i].0 == s),
    decreases xs.len(),
{
    if xs.len() > 0 {
        let t = xs.drop_last();
        lemma_atoms_added_dom(m, t);
        assert forall|s: usize| #[trigger] atoms_added(m, xs).contains_key(s) <==>
            (m.contains_key(s) || exists|i: int| 0 <= i < xs.len() && xs[i].0 == s) by {
            if exists|i: int| 0 <= i < xs.len() && xs[i].0 == s {
                let i = choose|i: int| 0 <= i < xs.len() && xs[i].0 == s;
                if i < t.len() {
                    assert(t[i].0 == s);
                }
            }
            if exists|i: int| 0 <= i < t.len() && t[i].0 == s {
                let i = choose|i: int| 0 <= i < t.len() && t[i].0 == s;
                assert(xs[i].0 == s);
            }
        }
    }
}

/// Adding a prefix of `xs` reaches no serial number that adding all of `xs` does not.
proof fn lemma_atoms_added_prefix(m: Map<usize, Atom>, xs: Seq<(usize, Atom)>, n: int)
    requires
        m.dom().finite(),
        0 <= n <= xs.len(),
    ensures
        atoms_added(m, xs.take(n)).dom().subset_of(atoms_added(m, xs).dom()),
        atoms_added(m, xs.take(n)).len() <= atoms_added(m, xs).len(),
{
    lemma_atoms_added_dom(m, xs);
    lemma_atoms_added_dom(m, xs.take(n));
    assert forall|s: usize| atoms_added(m, xs.take(n)).dom().contains(s) implies
        atoms_added(m, xs).dom().contains(s) by {
        assert(atoms_added(m, xs.take(n)).contains_key(s));
        if !m.contains_key(s) {
            let i = choose|i: int| 0 <= i < xs.take(n).len() && xs.take(n)[i].0 == s;
            assert(xs[i].0 == s);
        }
        assert(atoms_added(m, xs).contains_key(s));
    }
    lemma_len_subset(atoms_added(m, xs.take(n)).dom(), atoms_added(m, xs).dom());
}

/// The bonds after each `(a, b, bond)` of `xs` is added in order.
pub open spec fn bonds_added(m: Map<(usize, usize), Bond>, xs: Seq<(usize, usize, Bond)>) -> Map<(usize, usize), Bond>
    decreases xs.len(),
{
    if xs.len() == 0 {
        m
    } else {
        bonds_added(m, xs.drop_last()).insert(pair(xs.last().0, xs.last().1), xs.last().2)
    }
}

/// The keys of the pairs listed in `ps`.
pub open spec fn pair_keys(ps: Seq<(usize, usize)>) -> Set<(usize, usize)> {
    ps.map_values(|p: (usize, usize)| pair(p.0, p.1)).to_set()
}

/// The bonds that touch no atom of `s`.
pub open spec fn bonds_clear_of(m: Map<(usize, usize), Bond>, s: Set<usize>) -> Map<(usize, usize), Bond> {
    m.restrict(m.dom().filter(|p: (usize, usize)| !s.contains(p.0) && !s.contains(p.1)))
}

impl Molecule {
    /// Serial number to node index.
    pub closed spec fn handles(&self) -> Map<usize, usize> {
        serial_pairs(self.mapping)
    }

    pub closed spec fn nodes(&self) -> Map<usize, Atom> {
        graph_nodes(self.graph)
    }

    pub closed spec fn edges(&self) -> Map<(usize, usize), Bond> {
        graph_edges(self.graph)
    }

    /// The atoms, by serial number.
    pub closed spec fn atom_map(&self) -> Map<usize, Atom> {
        let h = self.handles();
        let g = self.nodes();
        Map::new(|s: usize| h.contains_key(s), |s: usize| g[h[s]])
    }

    /// The bonds, by the pair of serial numbers of their atoms, smaller first.
    pub closed spec fn bond_map(&self) -> Map<(usize, usize), Bond> {
        let h = self.handles();
        let e = self.edges();
        Map::new(
            |p: (usize, usize)| p.0 < p.1 && h.contains_key(p.0) && h.contains_key(p.1)
                && e.contains_key(pair(h[p.0], h[p.1])),
            |p: (usize, usize)| e[pair(h[p.0], h[p.1])],
        )
    }

    /// Both maps are finite, and every bond joins two distinct present atoms,
    /// smaller serial number first.
    pub open spec fn bonds_join_atoms(&self) -> bool {
        &&& self.atom_map().dom().finite()
        &&& self.bond_map().dom().finite()
        &&& forall|p: (usize, usize)| #[trigger] self.bond_map().contains_key(p) ==>
            p.0 < p.1 && self.atom_map().contains_key(p.0) && self.atom_map().contains_key(p.1)
    }

    /// A well-formed molecule has finitely many atoms and bonds, and each bond
    /// joins two of its atoms.
    pub proof fn lemma_bonds_join_atoms(&self)
        requires
            self.wf(),
        ensures
            self.bonds_join_atoms(),
    {
        self.lemma_counts();
    }

    /// The lattice, where there is one.
    pub closed spec fn lattice_view(&self) -> Option<Lattice> {
        self.lattice
    }

    /// The bonds as pairs of serial numbers with their bond, in the order in
    /// which the graph lists its edges.
    pub closed spec fn bond_list(&self) -> Seq<(usize, usize, Bond)> {
        let h = self.handles();
        graph_edge_order(self.graph).map_values(
            |t: (usize, usize, Bond)| (serial_of(h, t.0), serial_of(h, t.1), t.2),
        )
    }

    /// The stored name.
    pub closed spec fn name(&self) -> Seq<char> {
        self.name@
    }

    /// The serial numbers and the nodes are in one-to-one correspondence, and
    /// every bond joins two distinct present atoms.
    pub closed spec fn wf(&self) -> bool {
        let h = self.handles();
        let g = self.nodes();
        let e = self.edges();
        &&& h.dom().finite()
        &&& g.dom().finite()
        &&& e.dom().finite()
        &&& graph_pairs_indexed(self.graph)
        &&& forall|s1: usize, s2: usize| #![trigger h[s1], h[s2]]
            h.contains_key(s1) && h.contains_key(s2) && s1 != s2 ==> h[s1] != h[s2]
        &&& forall|s: usize| #[trigger] h.contains_key(s) ==> g.contains_key(h[s])
        &&& forall|n: usize| #[trigger] g.contains_key(n) ==> h.contains_key(serial_of(h, n)) && h[serial_of(h, n)] == n
        &&& forall|k: (usize, usize)| #[trigger] e.contains_key(k) ==>
            k.0 < k.1 && g.contains_key(k.0) && g.contains_key(k.1)
    }

    proof fn lemma_counts(&self)
        requires
            self.wf(),
        ensures
            self.nodes().len() == self.atom_map().len(),
            self.atom_map().dom() == self.handles().dom(),
            self.atom_map().dom().finite(),
            self.edges().len() == self.bond_map().len(),
            self.bond_map().dom().finite(),
    {
        let h = self.handles();
        let g = self.nodes();
        let e = self.edges();
        assert(self.atom_map().dom() =~= h.dom());
        let f = |s: usize| h[s];
        assert(h.dom().map(f) =~= g.dom()) by {
            assert forall|n: usize| g.dom().contains(n) implies h.dom().map(f).contains(n) by {
                assert(h.contains_key(serial_of(h, n)));
                assert(f(serial_of(h, n)) == n);
            }
        }
        lemma_map_size(h.dom(), g.dom(), f);
        let fe = |k: (usize, usize)| pair(serial_of(h, k.0), serial_of(h, k.1));
        assert(e.dom().map(fe) =~= self.bond_map().dom()) by {
            assert forall|k: (usize, usize)| e.dom().contains(k) implies
                self.bond_map().dom().contains(fe(k)) by {
                assert(g.contains_key(k.0) && g.contains_key(k.1));
                let a = serial_of(h, k.0);
                let b = serial_of(h, k.1);
                assert(h[a] == k.0 && h[b] == k.1);
                assert(a != b);
                assert(pair(h[fe(k).0], h[fe(k).1]) == k);
            }
            assert forall|p: (usize, usize)| self.bond_map().dom().contains(p) implies
                e.dom().map(fe).contains(p) by {
                let k = pair(h[p.0], h[p.1]);
                assert(e.contains_key(k));
                assert(g.contains_key(h[p.0]) && g.contains_key(h[p.1]));
                let a = serial_of(h, h[p.0]);
                let b = serial_of(h, h[p.1]);
                assert(h[a] == h[p.0]);
                assert(h[b] == h[p.1]);
                assert(a == p.0);
                assert(b == p.1);
                assert(fe(k) == p);
            }
        }
        assert(injective_on(fe, e.dom())) by {
            assert forall|k1: (usize, usize), k2: (usize, usize)|
                e.dom().contains(k1) && e.dom().contains(k2) && #[trigger] fe(k1) == #[trigger] fe(k2)
                implies k1 == k2 by {
                let a1 = serial_of(h, k1.0);
                let b1 = serial_of(h, k1.1);
                let a2 = serial_of(h, k2.0);
                let b2 = serial_of(h, k2.1);
                assert(h[a1] == k1.0 && h[b1] == k1.1 && h[a2] == k2.0 && h[b2] == k2.1);
                assert(g.contains_key(k1.0) && g.contains_key(k1.1));
                assert(g.contains_key(k2.0) && g.contains_key(k2.1));
            }
        }
        lemma_map_size(e.dom(), self.bond_map().dom(), fe);
    }

    /// An empty molecule with the given name.
    pub fn new(name: &str) -> (r: Molecule)
        ensures
            r.wf(),
            r.atom_map() == Map::<usize, Atom>::empty(),
            r.bond_map() == Map::<(usize, usize), Bond>::empty(),
            r.name() == name@,
            r.lattice_view() is None,
    {
        let r = Molecule {
            lattice: None,
            name: String::from_str(name),
            graph: new_graph(),
            mapping: new_index(),
        };
        assert(r.atom_map() =~= Map::<usize, Atom>::empty());
        assert(r.bond_map() =~= Map::<(usize, usize), Bond>::empty());
        r
    }

    /// A molecule over a graph built elsewhere: its nodes, in ascending order
    /// of node index, become the atoms 1, 2, 3, ...
    pub fn from_graph(graph: NxGraph<Atom, Bond>) -> (r: Molecule)
        requires
            graph_pairs_indexed(graph),
            forall|k: (usize, usize)| #[trigger] graph_edges(graph).contains_key(k) ==>
                k.0 < k.1 && graph_nodes(graph).contains_key(k.0) && graph_nodes(graph).contains_key(k.1),
        ensures
            r.wf(),
            r.name() == Seq::<char>::empty(),
            r.lattice_view() is None,
            exists|order: Seq<usize>| {
                &&& #[trigger] lists_in_order(order, graph_nodes(graph).dom())
                &&& r.atom_map() == Map::new(
                    |s: usize| 1 <= s <= order.len(),
                    |s: usize| graph_nodes(graph)[order[s - 1]],
                )
                &&& r.bond_map() == Map::new(
                    |p: (usize, usize)| 1 <= p.0 < p.1 <= order.len()
                        && graph_edges(graph).contains_key(pair(order[p.0 - 1], order[p.1 - 1])),
                    |p: (usize, usize)| graph_edges(graph)[pair(order[p.0 - 1], order[p.1 - 1])],
                )
            },
    {
        let nodes = node_list(&graph);
        let es = edge_list(&graph);
        let mut mapping = new_index();
        let mut i: usize = 0;
        while i < nodes.len()
            invariant
                0 <= i <= nodes@.len(),
                ascending(nodes@),
                serial_pairs(mapping) == Map::new(|s: usize| 1 <= s <= i, |s: usize| nodes@[s - 1]),
            decreases nodes@.len() - i,
        {
            let ghost h = serial_pairs(mapping);
            let ok = insert_new(&mut mapping, i + 1, nodes[i]);
            proof {
                assert(ok) by {
                    assert forall|k: usize| #[trigger] h.contains_key(k) implies h[k] != nodes@[i as int] by {
                        assert(nodes@[k - 1] < nodes@[i as int]);
                    }
                }
                assert(serial_pairs(mapping) =~= Map::new(|s: usize| 1 <= s <= i + 1, |s: usize| nodes@[s - 1]));
            }
            i = i + 1;
        }
        proof {
            reveal_strlit("");
        }
        let r = Molecule { lattice: None, name: String::from_str(""), graph, mapping };
        proof {
            let h = r.handles();
            let g = r.nodes();
            assert(h.dom().finite()) by {
                let rng = vstd::set_lib::set_int_range(1, nodes@.len() as int + 1);
                assert forall|s: usize| h.dom().contains(s) implies rng.map(|x: int| x as usize).contains(s) by {
                    assert(rng.contains(s as int));
                    assert((|x: int| x as usize)(s as int) == s);
                }
                assert(h.dom() =~= rng.map(|x: int| x as usize));
                vstd::set_lib::lemma_int_range(1, nodes@.len() as int + 1);
                vstd::set_lib::set_int_range(1, nodes@.len() as int + 1).lemma_map_finite(|x: int| x as usize);
            }
            assert(g.dom().finite()) by {
                assert(g.dom() =~= nodes@.to_set());
            }
            assert(r.edges().dom().finite()) by {
                let keys = es@.map_values(|t: (usize, usize, Bond)| pair(t.0, t.1)).to_set();
                assert forall|k: (usize, usize)| r.edges().dom().contains(k) implies keys.contains(k) by {
                    let i = choose|i: int| 0 <= i < es@.len() && #[trigger] pair(es@[i].0, es@[i].1) == k;
                    assert(es@.map_values(|t: (usize, usize, Bond)| pair(t.0, t.1))[i] == k);
                }
                lemma_len_subset(r.edges().dom(), keys);
            }
            assert forall|s: usize| #[trigger] h.contains_key(s) implies g.contains_key(h[s]) by {
                assert(nodes@.contains(nodes@[s - 1]));
            }
            assert forall|n: usize| #[trigger] g.contains_key(n) implies
                h.contains_key(serial_of(h, n)) && h[serial_of(h, n)] == n by {
                assert(nodes@.contains(n));
                let k = choose|k: int| 0 <= k < nodes@.len() && nodes@[k] == n;
                assert(h.contains_key((k + 1) as usize) && h[(k + 1) as usize] == n);
            }
            assert forall|s1: usize, s2: usize| #![trigger h[s1], h[s2]]
                h.contains_key(s1) && h.contains_key(s2) && s1 != s2 implies h[s1] != h[s2] by {
                if s1 < s2 {
                    assert(nodes@[s1 - 1] < nodes@[s2 - 1]);
                } else {
                    assert(nodes@[s2 - 1] < nodes@[s1 - 1]);
                }
            }
            let order = nodes@;
            assert(lists_in_order(order, graph_nodes(r.graph).dom()));
            assert(r.atom_map() =~= Map::new(
                |s: usize| 1 <= s <= order.len(),
                |s: usize| graph_nodes(r.graph)[order[s - 1]],
            ));
            assert(r.bond_map() =~= Map::new(
                |p: (usize, usize)| 1 <= p.0 < p.1 <= order.len()
                    && graph_edges(r.graph).contains_key(pair(order[p.0 - 1], order[p.1 - 1])),
                |p: (usize, usize)| graph_edges(r.graph)[pair(order[p.0 - 1], order[p.1 - 1])],
            ));
        }
        r
    }

    /// The graph that holds the atoms and bonds.
    pub closed spec fn graph_view(&self) -> NxGraph<Atom, Bond> {
        self.graph
    }

    /// Gives up the molecule for its graph: one node for each atom, one edge
    /// for each bond, in a state that `from_graph` accepts.
    pub fn into_graph(self) -> (r: NxGraph<Atom, Bond>)
        requires
            self.wf(),
        ensures
            r == self.graph_view(),
            graph_pairs_indexed(r),
            forall|k: (usize, usize)| #[trigger] graph_edges(r).contains_key(k) ==>
                k.0 < k.1 && graph_nodes(r).contains_key(k.0) && graph_nodes(r).contains_key(k.1),
            graph_nodes(r).len() == self.atom_map().len(),
            graph_edges(r).len() == self.bond_map().len(),
    {
        proof {
            self.lemma_counts();
        }
        self.graph
    }

    /// The number of atoms.
    pub fn natoms(&self) -> (r: usize)
        requires
            self.wf(),
        ensures
            r == self.atom_map().len(),
    {
        proof {
            self.lemma_counts();
        }
        node_count(&self.graph)
    }

    /// The number of bonds.
    pub fn nbonds(&self) -> (r: usize)
        requires
            self.wf(),
        ensures
            r == self.bond_map().len(),
    {
        proof {
            self.lemma_counts();
        }
        edge_count(&self.graph)
    }

    /// Adds `atom` under serial number `a`, replacing the atom that is there.
    pub fn add_atom(&mut self, a: usize, atom: Atom)
        requires
            old(self).wf(),
            old(self).atom_map().contains_key(a) || old(self).atom_map().len() < MAX_NODES,
        ensures
            final(self).wf(),
            final(self).atom_map() == old(self).atom_map().insert(a, atom),
            final(self).bond_map() == old(self).bond_map(),
            final(self).name() == old(self).name(),
            final(self).lattice_view() == old(self).lattice_view(),
    {
        proof {
            self.lemma_counts();
        }
        let ghost h = self.handles();
        let ghost e = self.edges();
        match right_of(&self.mapping, a) {
            Some(n) => {
                let slot = node_mut(&mut self.graph, n);
                *slot = atom;
                proof {
                    let g2 = self.nodes();
                    assert forall|m: usize| #[trigger] g2.contains_key(m) implies
                        h.contains_key(serial_of(h, m)) && h[serial_of(h, m)] == m by {
                        assert(old(self).nodes().contains_key(m));
                    }
                    assert(self.atom_map() =~= old(self).atom_map().insert(a, atom));
                    assert(self.bond_map() =~= old(self).bond_map());
                }
            },
            None => {
                let n = add_node(&mut self.graph, atom);
                let ok = insert_new(&mut self.mapping, a, n);
                proof {
                    assert(ok) by {
                        assert forall|k: usize| #[trigger] h.contains_key(k) implies h[k] != n by {
                            assert(old(self).nodes().contains_key(h[k]));
                        }
                    }
                    let h2 = self.handles();
                    let g2 = self.nodes();
                    assert(h2 == h.insert(a, n));
                    assert forall|m: usize| #[trigger] g2.contains_key(m) implies
                        h2.contains_key(serial_of(h2, m)) && h2[serial_of(h2, m)] == m by {
                        if m == n {
                            assert(h2.contains_key(a) && h2[a] == n);
                        } else {
                            assert(old(self).nodes().contains_key(m));
                            let s0 = serial_of(h, m);
                            assert(h2.contains_key(s0) && h2[s0] == m);
                        }
                    }
                    assert forall|s1: usize, s2: usize| #![trigger h2[s1], h2[s2]]
                        h2.contains_key(s1) && h2.contains_key(s2) && s1 != s2 implies h2[s1] != h2[s2] by {
                        if s1 != a && s2 != a {
                            assert(h[s1] != h[s2]);
                        } else if s1 == a {
                            assert(old(self).nodes().contains_key(h[s2]));
                        } else {
                            assert(old(self).nodes().contains_key(h[s1]));
                        }
                    }
                    assert(self.atom_map() =~= old(self).atom_map().insert(a, atom));
                    assert forall|p: (usize, usize)| #[trigger] self.bond_map().contains_key(p) ==
                        old(self).bond_map().contains_key(p) by {
                        if p.0 == a || p.1 == a {
                            if h2.contains_key(p.0) && h2.contains_key(p.1) && e.contains_key(pair(h2[p.0], h2[p.1])) {
                                let k = pair(h2[p.0], h2[p.1]);
                                assert(old(self).nodes().contains_key(k.0));
                                assert(old(self).nodes().contains_key(k.1));
                            }
                        }
                    }
                    assert(self.bond_map() =~= old(self).bond_map());
                }
            },
        }
    }

    /// Removes the atom under serial number `a`, with its bonds, and returns it;
    /// `None` where there is no such atom.
    pub fn remove_atom(&mut self, a: usize) -> (r: Option<Atom>)
        requires
            old(self).wf(),
        ensures
            final(self).wf(),
            r == (if old(self).atom_map().contains_key(a) {
                Some(old(self).atom_map()[a])
            } else {
                None::<Atom>
            }),
            final(self).atom_map() == old(self).atom_map().remove(a),
            final(self).bond_map() == old(self).bond_map().restrict(
                old(self).bond_map().dom().filter(|p: (usize, usize)| p.0 != a && p.1 != a),
            ),
            final(self).name() == old(self).name(),
            final(self).lattice_view() == old(self).lattice_view(),
    {
        let ghost h = self.handles();
        let ghost g = self.nodes();
        let ghost e = self.edges();
        match remove_left(&mut self.mapping, a) {
            Some(n) => {
                let r = remove_node(&mut self.graph, n);
                proof {
                    let h2 = self.handles();
                    let g2 = self.nodes();
                    let e2 = self.edges();
                    assert(h2 == h.remove(a));
                    assert(e2.dom().subset_of(e.dom()));
                    lemma_len_subset(e2.dom(), e.dom());
                    assert forall|s1: usize, s2: usize| #![trigger h2[s1], h2[s2]]
                        h2.contains_key(s1) && h2.contains_key(s2) && s1 != s2 implies h2[s1] != h2[s2] by {
                        assert(h[s1] != h[s2]);
                    }
                    assert forall|s: usize| #[trigger] h2.contains_key(s) implies g2.contains_key(h2[s]) by {
                        assert(h[s] != h[a]);
                    }
                    assert forall|m: usize| #[trigger] g2.contains_key(m) implies
                        h2.contains_key(serial_of(h2, m)) && h2[serial_of(h2, m)] == m by {
                        assert(g.contains_key(m));
                        let s0 = serial_of(h, m);
                        assert(s0 != a);
                        assert(h2.contains_key(s0) && h2[s0] == m);
                    }
                    assert forall|k: (usize, usize)| #[trigger] e2.contains_key(k) implies
                        k.0 < k.1 && g2.contains_key(k.0) && g2.contains_key(k.1) by {
                        assert(e.contains_key(k));
                    }
                    assert(self.atom_map() =~= old(self).atom_map().remove(a));
                    let bm = old(self).bond_map();
                    let want = bm.restrict(bm.dom().filter(|p: (usize, usize)| p.0 != a && p.1 != a));
                    assert forall|p: (usize, usize)| #[trigger] self.bond_map().contains_key(p) == want.contains_key(p) by {
                        if p.0 < p.1 && h2.contains_key(p.0) && h2.contains_key(p.1) {
                            assert(h[p.0] != n && h[p.1] != n);
                            let k = pair(h[p.0], h[p.1]);
                            assert(k.0 != n && k.1 != n);
                        }
                        if want.contains_key(p) {
                            assert(h2.contains_key(p.0) && h2.contains_key(p.1));
                            assert(h[p.0] != n && h[p.1] != n);
                        }
                    }
                    assert(self.bond_map() =~= want);
                }
                r
            },
            None => {
                proof {
                    assert(self.handles() =~= h);
                    assert(self.atom_map() =~= old(self).atom_map().remove(a));
                    let bm = old(self).bond_map();
                    assert(bm.restrict(bm.dom().filter(|p: (usize, usize)| p.0 != a && p.1 != a)) =~= bm);
                }
                None
            },
        }
    }

    /// Adds `bond` between the atoms `a` and `b`, replacing the bond that
    /// joins them.
    pub fn add_bond(&mut self, a: usize, b: usize, bond: Bond)
        requires
            old(self).wf(),
            old(self).atom_map().contains_key(a),
            old(self).atom_map().contains_key(b),
            a != b,
            old(self).bond_map().contains_key(pair(a, b)) || old(self).bond_map().len() < MAX_EDGES,
        ensures
            final(self).wf(),
            final(self).atom_map() == old(self).atom_map(),
            final(self).bond_map() == old(self).bond_map().insert(pair(a, b), bond),
            final(self).name() == old(self).name(),
            final(self).lattice_view() == old(self).lattice_view(),
    {
        let ghost h = self.handles();
        let na = right_of(&self.mapping, a).unwrap();
        let nb = right_of(&self.mapping, b).unwrap();
        proof {
            self.lemma_counts();
            let p = pair(a, b);
            assert(pair(h[p.0], h[p.1]) == pair(na, nb));
        }
        add_edge(&mut self.graph, na, nb, bond);
        proof {
            assert(h[a] != h[b]);
            assert(self.atom_map() =~= old(self).atom_map());
            assert forall|p: (usize, usize)| #[trigger] self.bond_map().contains_key(p) ==
                old(self).bond_map().insert(pair(a, b), bond).contains_key(p) by {
                if p.0 < p.1 && h.contains_key(p.0) && h.contains_key(p.1) && pair(h[p.0], h[p.1]) == pair(na, nb) {
                    assert(p == pair(a, b));
                }
            }
            assert forall|p: (usize, usize)| #[trigger] self.bond_map().contains_key(p) implies
                self.bond_map()[p] == old(self).bond_map().insert(pair(a, b), bond)[p] by {
                if pair(h[p.0], h[p.1]) == pair(na, nb) {
                    assert(p == pair(a, b));
                }
            }
            assert(self.bond_map() =~= old(self).bond_map().insert(pair(a, b), bond));
        }
    }

    /// Removes the bond between the atoms `a` and `b` and returns it; `None`
    /// where they are not bonded.
    pub fn remove_bond(&mut self, a: usize, b: usize) -> (r: Option<Bond>)
        requires
            old(self).wf(),
            old(self).atom_map().contains_key(a),
            old(self).atom_map().contains_key(b),
        ensures
            final(self).wf(),
            r == (if old(self).bond_map().contains_key(pair(a, b)) {
                Some(old(self).bond_map()[pair(a, b)])
            } else {
                None::<Bond>
            }),
            final(self).atom_map() == old(self).atom_map(),
            final(self).bond_map() == old(self).bond_map().remove(pair(a, b)),
            final(self).name() == old(self).name(),
            final(self).lattice_view() == old(self).lattice_view(),
    {
        let ghost h = self.handles();
        let na = right_of(&self.mapping, a).unwrap();
        let nb = right_of(&self.mapping, b).unwrap();
        proof {
            assert(a == b || h[a] != h[b]);
            let p = pair(a, b);
            assert(pair(h[p.0], h[p.1]) == pair(na, nb));
        }
        if has_edge(&self.graph, na, nb) {
            let r = remove_edge(&mut self.graph, na, nb);
            proof {
                if a == b {
                    assert(false);
                }
                assert(self.atom_map() =~= old(self).atom_map());
                assert forall|p: (usize, usize)| #[trigger] self.bond_map().contains_key(p) ==
                    old(self).bond_map().remove(pair(a, b)).contains_key(p) by {
                    if p.0 < p.1 && h.contains_key(p.0) && h.contains_key(p.1) && pair(h[p.0], h[p.1]) == pair(na, nb) {
                        assert(p == pair(a, b));
                    }
                }
                assert(self.bond_map() =~= old(self).bond_map().remove(pair(a, b)));
            }
            r
        } else {
            proof {
                assert(self.bond_map() =~= old(self).bond_map().remove(pair(a, b)));
            }
            None
        }
    }

    /// Removes every atom and bond.
    pub fn clear(&mut self)
        requires
            old(self).wf(),
        ensures
            final(self).wf(),
            final(self).atom_map() == Map::<usize, Atom>::empty(),
            final(self).bond_map() == Map::<(usize, usize), Bond>::empty(),
            final(self).name() == old(self).name(),
            final(self).lattice_view() == old(self).lattice_view(),
    {
        clear_index(&mut self.mapping);
        clear_graph(&mut self.graph);
        assert(self.atom_map() =~= Map::<usize, Atom>::empty());
        assert(self.bond_map() =~= Map::<(usize, usize), Bond>::empty());
    }

    /// The serial numbers in ascending order.
    pub open spec fn serial_order(&self) -> Seq<usize> {
        choose|s: Seq<usize>| #[trigger] lists_in_order(s, self.atom_map().dom())
    }

    /// The serial numbers of the atoms, in ascending order.
    pub fn serial_numbers(&self) -> (r: Vec<usize>)
        requires
            self.wf(),
        ensures
            r@ == self.serial_order(),
            lists_in_order(r@, self.atom_map().dom()),
            r@.len() == self.atom_map().len(),
    {
        let vals = left_values(&self.mapping);
        let mut r: Vec<usize> = Vec::new();
        let mut i: usize = 0;
        while i < vals.len()
            invariant
                0 <= i <= vals@.len(),
                vals@.no_duplicates(),
                ascending(r@),
                forall|y: usize| r@.contains(y) <==> vals@.take(i as int).contains(y),
            decreases vals@.len() - i,
        {
            proof {
                assert(!vals@.take(i as int).contains(vals@[i as int])) by {
                    if vals@.take(i as int).contains(vals@[i as int]) {
                        let k = choose|k: int| 0 <= k < i && vals@.take(i as int)[k] == vals@[i as int];
                        assert(vals@[k] == vals@[i as int]);
                    }
                }
            }
            insert_in_order(&mut r, vals[i]);
            proof {
                assert forall|y: usize| r@.contains(y) <==> vals@.take(i + 1).contains(y) by {
                    if vals@.take(i as int).contains(y) {
                        let k = choose|k: int| 0 <= k < i && vals@.take(i as int)[k] == y;
                        assert(vals@.take(i + 1)[k] == y);
                    }
                    if vals@.take(i + 1).contains(y) {
                        let t1 = vals@.take(i + 1);
                        let k = choose|k: int| 0 <= k < t1.len() && t1[k] == y;
                        if k < i {
                            assert(vals@.take(i as int)[k] == y);
                        }
                    }
                    assert(vals@.take(i + 1)[i as int] == vals@[i as int]);
                }
            }
            i = i + 1;
        }
        proof {
            assert(vals@.take(vals@.len() as int) == vals@);
            self.lemma_counts();
            assert(lists_in_order(r@, self.atom_map().dom()));
            lemma_listing_unique(r@, self.serial_order(), self.atom_map().dom());
            assert(r@.no_duplicates()) by {
                assert forall|i: int, j: int| 0 <= i < r@.len() && 0 <= j < r@.len() && i != j implies r@[i] != r@[j] by {
                    if i < j {
                        assert(r@[i] < r@[j]);
                    } else {
                        assert(r@[j] < r@[i]);
                    }
                }
            }
            r@.unique_seq_to_set();
            assert(r@.to_set() =~= self.atom_map().dom());
        }
        r
    }

    /// The atoms with their serial numbers, in ascending order of serial number.
    pub fn atoms(&self) -> (r: Vec<(usize, &Atom)>)
        requires
            self.wf(),
        ensures
            r@.len() == self.serial_order().len(),
            forall|i: int| #![trigger r@[i]] 0 <= i < r@.len() ==>
                r@[i].0 == self.serial_order()[i] && *r@[i].1 == self.atom_map()[self.serial_order()[i]],
    {
        let sns = self.serial_numbers();
        let mut r: Vec<(usize, &Atom)> = Vec::new();
        let mut i: usize = 0;
        while i < sns.len()
            invariant
                self.wf(),
                0 <= i <= sns@.len(),
                sns@ == self.serial_order(),
                lists_in_order(sns@, self.atom_map().dom()),
                r@.len() == i,
                forall|k: int| #![trigger r@[k]] 0 <= k < i ==>
                    r@[k].0 == sns@[k] && *r@[k].1 == self.atom_map()[sns@[k]],
            decreases sns@.len() - i,
        {
            proof {
                assert(sns@.contains(sns@[i as int]));
            }
            let n = right_of(&self.mapping, sns[i]).unwrap();
            let a = node_ref(&self.graph, n);
            r.push((sns[i], a));
            i = i + 1;
        }
        r
    }

    /// The symbols of the atoms in the order of their serial numbers.
    pub open spec fn symbol_seq(&self) -> Seq<Seq<char>> {
        self.serial_order().map_values(|s: usize| self.atom_map()[s].symbol@)
    }

    /// The symbols of the atoms, in ascending order of serial number.
    pub fn symbols(&self) -> (r: Vec<&str>)
        requires
            self.wf(),
        ensures
            r@.map_values(|x: &str| x@) == self.symbol_seq(),
    {
        let atoms = self.atoms();
        let mut r: Vec<&str> = Vec::new();
        let mut i: usize = 0;
        while i < atoms.len()
            invariant
                0 <= i <= atoms@.len(),
                atoms@.len() == self.serial_order().len(),
                forall|k: int| #![trigger atoms@[k]] 0 <= k < atoms@.len() ==>
                    atoms@[k].0 == self.serial_order()[k] && *atoms@[k].1 == self.atom_map()[self.serial_order()[k]],
                r@.len() == i,
                forall|k: int| 0 <= k < i ==> #[trigger] r@[k]@ == self.symbol_seq()[k],
            decreases atoms@.len() - i,
        {
            let a: &Atom = atoms[i].1;
            proof {
                assert(atoms@[i as int].0 == self.serial_order()[i as int]);
            }
            r.push(a.symbol());
            i = i + 1;
        }
        assert(r@.map_values(|x: &str| x@) =~= self.symbol_seq());
        r
    }

    /// The atomic numbers of the atoms, in ascending order of serial number.
    pub fn atomic_numbers(&self) -> (r: Vec<usize>)
        requires
            self.wf(),
        ensures
            r@.len() == self.serial_order().len(),
            forall|i: int| 0 <= i < r@.len() ==> #[trigger] r@[i] == self.atom_map()[self.serial_order()[i]].number,
    {
        let atoms = self.atoms();
        let mut r: Vec<usize> = Vec::new();
        let mut i: usize = 0;
        while i < atoms.len()
            invariant
                0 <= i <= atoms@.len(),
                atoms@.len() == self.serial_order().len(),
                forall|k: int| #![trigger atoms@[k]] 0 <= k < atoms@.len() ==>
                    atoms@[k].0 == self.serial_order()[k] && *atoms@[k].1 == self.atom_map()[self.serial_order()[k]],
                r@.len() == i,
                forall|k: int| 0 <= k < i ==> #[trigger] r@[k] == self.atom_map()[self.serial_order()[k]].number,
            decreases atoms@.len() - i,
        {
            let a: &Atom = atoms[i].1;
            r.push(a.number());
            i = i + 1;
        }
        r
    }

    /// The atomic numbers of the atoms; the same as `atomic_numbers`.
    pub fn numbers(&self) -> (r: Vec<usize>)
        requires
            self.wf(),
        ensures
            r@.len() == self.serial_order().len(),
            forall|i: int| 0 <= i < r@.len() ==> #[trigger] r@[i] == self.atom_map()[self.serial_order()[i]].number,
    {
        self.atomic_numbers()
    }

    /// The positions of the atoms, in ascending order of serial number.
    pub fn positions(&self) -> (r: Vec<Point3>)
        requires
            self.wf(),
        ensures
            r@.len() == self.serial_order().len(),
            forall|i: int| 0 <= i < r@.len() ==> #[trigger] r@[i] == self.atom_map()[self.serial_order()[i]].position,
    {
        let atoms = self.atoms();
        let mut r: Vec<Point3> = Vec::new();
        let mut i: usize = 0;
        while i < atoms.len()
            invariant
                0 <= i <= atoms@.len(),
                atoms@.len() == self.serial_order().len(),
                forall|k: int| #![trigger atoms@[k]] 0 <= k < atoms@.len() ==>
                    atoms@[k].0 == self.serial_order()[k] && *atoms@[k].1 == self.atom_map()[self.serial_order()[k]],
                r@.len() == i,
                forall|k: int| 0 <= k < i ==> #[trigger] r@[k] == self.atom_map()[self.serial_order()[k]].position,
            decreases atoms@.len() - i,
        {
            let a: &Atom = atoms[i].1;
            r.push(a.position());
            i = i + 1;
        }
        r
    }

    /// The chemical formula of the molecule; empty where it has no atom.
    pub fn formula(&self) -> (r: String)
        requires
            self.wf(),
        ensures
            r@ == formula_of(self.symbol_seq()),
    {
        let syms = self.symbols();
        get_reduced_formula(syms.as_slice())
    }

    /// Each distinct symbol of the molecule with its number of atoms, in the
    /// order in which the symbols first occur by serial number.
    pub fn reduced_symbols(&self) -> (r: Vec<(String, usize)>)
        requires
            self.wf(),
        ensures
            counts_view(r@) == reduced(self.symbol_seq()),
    {
        let syms = self.symbols();
        get_reduced_symbols(syms.as_slice())
    }

    /// The display title: the first line of the name that holds more than
    /// white space, trimmed, or "untitled".
    pub fn title(&self) -> (r: String)
        ensures
            r@ == title_of(self.name()),
    {
        let lines = split_lines(self.name.as_str());
        let ghost ls = lines_of(self.name@);
        let mut t: Vec<&str> = Vec::new();
        let mut i: usize = 0;
        while i < lines.len()
            invariant
                0 <= i <= lines@.len(),
                lines@.map_values(|x: &str| x@) == ls,
                t@.len() == i,
                forall|k: int| 0 <= k < i ==> #[trigger] t@[k]@ == trimmed(ls[k]),
            decreases lines@.len() - i,
        {
            proof {
                assert(ls[i as int] == lines@[i as int]@);
            }
            t.push(trim_text(lines[i]));
            i = i + 1;
        }
        proof {
            assert(t@.map_values(|x: &str| x@) =~= ls.map_values(|l: Seq<char>| trimmed(l)));
        }
        pick_title(t.as_slice())
    }

    /// The stored name, as it was set.
    pub fn raw_name(&self) -> (r: &str)
        ensures
            r@ == self.name(),
    {
        self.name.as_str()
    }

    /// Replaces the name.
    pub fn set_title(&mut self, title: &str)
        requires
            old(self).wf(),
        ensures
            final(self).wf(),
            final(self).name() == title@,
            final(self).atom_map() == old(self).atom_map(),
            final(self).bond_map() == old(self).bond_map(),
    {
        self.name = String::from_str(title);
    }

    /// The atom under serial number `sn`, where there is one.
    pub fn get_atom(&self, sn: usize) -> (r: Option<&Atom>)
        requires
            self.wf(),
        ensures
            r is Some <==> self.atom_map().contains_key(sn),
            r matches Some(a) ==> *a == self.atom_map()[sn],
    {
        match right_of(&self.mapping, sn) {
            Some(n) => Some(node_ref(&self.graph, n)),
            None => None,
        }
    }

    /// Write access to the atom under serial number `sn`, where there is one.
    pub fn get_atom_mut(&mut self, sn: usize) -> (r: Option<&mut Atom>)
        requires
            old(self).wf(),
        ensures
            final(self).wf(),
            r is Some <==> old(self).atom_map().contains_key(sn),
            final(self).bond_map() == old(self).bond_map(),
            final(self).name() == old(self).name(),
            final(self).lattice_view() == old(self).lattice_view(),
            match r {
                Some(a) => *a == old(self).atom_map()[sn]
                    && final(self).atom_map() == old(self).atom_map().insert(sn, *final(a)),
                None => final(self).atom_map() == old(self).atom_map(),
            },
    {
        match right_of(&self.mapping, sn) {
            Some(n) => {
                proof {
                    let before = *self;
                    assert forall|m2: Molecule, x: Atom| #![trigger m2.wf(), before.nodes().insert(n, x)]
                        m2.handles() == before.handles()
                        && m2.nodes() == before.nodes().insert(n, x)
                        && m2.edges() == before.edges()
                        && graph_pairs_indexed(m2.graph) == graph_pairs_indexed(before.graph)
                        && m2.name == before.name
                        implies m2.wf() && m2.atom_map() == before.atom_map().insert(sn, x)
                            && m2.bond_map() == before.bond_map() by {
                        assert(m2.nodes().dom() =~= before.nodes().dom());
                        m2.lemma_same_nodes(before);
                        assert(m2.atom_map() =~= before.atom_map().insert(sn, x));
                        assert(m2.bond_map() =~= before.bond_map());
                    }
                }
                let a = node_mut(&mut self.graph, n);
                Some(a)
            },
            None => None,
        }
    }

    /// The bond between the atoms `sn1` and `sn2`, where both exist and are bonded.
    pub fn get_bond(&self, sn1: usize, sn2: usize) -> (r: Option<&Bond>)
        requires
            self.wf(),
        ensures
            r is Some <==> self.bond_map().contains_key(pair(sn1, sn2)),
            !self.atom_map().contains_key(sn1) || !self.atom_map().contains_key(sn2) ==> r is None,
            r matches Some(b) ==> *b == self.bond_map()[pair(sn1, sn2)],
    {
        let ghost h = self.handles();
        match right_of(&self.mapping, sn1) {
            Some(n1) => match right_of(&self.mapping, sn2) {
                Some(n2) => {
                    proof {
                        assert(sn1 == sn2 || h[sn1] != h[sn2]);
                        let p = pair(sn1, sn2);
                        assert(pair(h[p.0], h[p.1]) == pair(n1, n2));
                    }
                    if has_edge(&self.graph, n1, n2) {
                        Some(edge_ref(&self.graph, n1, n2))
                    } else {
                        None
                    }
                },
                None => None,
            },
            None => None,
        }
    }

    /// A molecule of the given atoms under serial numbers 1, 2, 3, ... in order.
    pub fn from_atoms(atoms: Vec<Atom>) -> (r: Molecule)
        requires
            atoms@.len() < MAX_NODES,
        ensures
            r.wf(),
            r.atom_map().dom() == Set::new(|s: usize| 1 <= s <= atoms@.len()),
            forall|s: usize| 1 <= s <= atoms@.len() ==> #[trigger] r.atom_map()[s] == atoms@[s - 1],
            r.bond_map() == Map::<(usize, usize), Bond>::empty(),
            r.name() == Seq::<char>::empty(),
            r.lattice_view() is None,
    {
        let ghost orig = atoms@;
        let mut atoms = atoms;
        proof {
            reveal_strlit("");
        }
        let mut mol = Molecule::new("");
        assert(atoms@ =~= orig.take(atoms@.len() as int));
        while atoms.len() > 0
            invariant
                mol.wf(),
                orig.len() < MAX_NODES,
                atoms@.len() <= orig.len(),
                atoms@ == orig.take(atoms@.len() as int),
                mol.atom_map().dom() == Set::new(|s: usize| atoms@.len() < s <= orig.len()),
                forall|s: usize| atoms@.len() < s <= orig.len() ==> #[trigger] mol.atom_map()[s] == orig[s - 1],
                mol.bond_map() == Map::<(usize, usize), Bond>::empty(),
                mol.name() == Seq::<char>::empty(),
                mol.lattice_view() is None,
            decreases atoms@.len(),
        {
            proof {
                mol.lemma_counts();
                let d = mol.atom_map().dom();
                let full = Set::new(|s: usize| 0 < s <= orig.len());
                assert(d.subset_of(full));
                assert(full =~= vstd::set_lib::set_int_range(1, orig.len() as int + 1).map(|i: int| i as usize)) by {
                    assert forall|s: usize| full.contains(s) implies
                        vstd::set_lib::set_int_range(1, orig.len() as int + 1).map(|i: int| i as usize).contains(s) by {
                        assert(vstd::set_lib::set_int_range(1, orig.len() as int + 1).contains(s as int));
                    }
                }
                vstd::set_lib::lemma_int_range(1, orig.len() as int + 1);
                vstd::set_lib::lemma_map_size_bound(vstd::set_lib::set_int_range(1, orig.len() as int + 1), full, |i: int| i as usize);
                lemma_len_subset(d, full);
            }
            let k = atoms.len();
            let ghost before = atoms@;
            let popped = atoms.pop();
            proof {
                assert(before.len() == k);
                assert(popped == Some(before[k as int - 1]));
            }
            let a = popped.unwrap();
            proof {
                assert(a == before[k as int - 1]);
                assert(before[k as int - 1] == orig[k as int - 1]);
            }
            mol.add_atom(k, a);
            proof {
                assert(atoms@ == before.subrange(0, k as int - 1));
                assert(atoms@ =~= orig.take(atoms@.len() as int));
                assert(mol.atom_map().dom() =~= Set::new(|s: usize| atoms@.len() < s <= orig.len()));
            }
        }
        mol
    }

    /// The bonds as pairs of serial numbers with their bond, each once, in no
    /// set order.
    pub fn bonds(&self) -> (r: Vec<(usize, usize, Bond)>)
        requires
            self.wf(),
        ensures
            r@ == self.bond_list(),
            r@.len() == self.bond_map().len(),
            forall|i: int| #![trigger r@[i]] 0 <= i < r@.len() ==>
                self.bond_map().contains_key(pair(r@[i].0, r@[i].1))
                && self.bond_map()[pair(r@[i].0, r@[i].1)] == r@[i].2,
            forall|i: int| #![trigger r@[i]] 0 <= i < r@.len() ==>
                self.atom_map().contains_key(r@[i].0) && self.atom_map().contains_key(r@[i].1),
            forall|i: int, j: int| 0 <= i < j < r@.len() ==>
                pair(r@[i].0, r@[i].1) != pair(r@[j].0, r@[j].1),
            forall|p: (usize, usize)| self.bond_map().contains_key(p) ==>
                exists|i: int| 0 <= i < r@.len() && #[trigger] pair(r@[i].0, r@[i].1) == p,
    {
        let ghost h = self.handles();
        let ghost g = self.nodes();
        let ghost e = self.edges();
        let es = edge_list(&self.graph);
        let mut r: Vec<(usize, usize, Bond)> = Vec::new();
        let mut i: usize = 0;
        while i < es.len()
            invariant
                self.wf(),
                h == self.handles(),
                g == self.nodes(),
                e == self.edges(),
                0 <= i <= es@.len(),
                r@.len() == i,
                forall|k: int| #![trigger es@[k]] 0 <= k < es@.len() ==>
                    e.contains_key(pair(es@[k].0, es@[k].1)) && e[pair(es@[k].0, es@[k].1)] == es@[k].2,
                forall|k: int| #![trigger r@[k]] 0 <= k < i ==>
                    r@[k].2 == es@[k].2 && h.contains_key(r@[k].0) && h.contains_key(r@[k].1)
                    && h[r@[k].0] == es@[k].0 && h[r@[k].1] == es@[k].1,
                forall|k: int| #![trigger r@[k]] 0 <= k < i ==>
                    r@[k] == (serial_of(h, es@[k].0), serial_of(h, es@[k].1), es@[k].2),
            decreases es@.len() - i,
        {
            let (u, v, b) = es[i];
            proof {
                let k = pair(u, v);
                assert(e.contains_key(k));
                assert(g.contains_key(u) && g.contains_key(v));
            }
            let a = left_of(&self.mapping, u).unwrap();
            let c = left_of(&self.mapping, v).unwrap();
            proof {
                let sa = serial_of(h, u);
                let sc = serial_of(h, v);
                assert(h.contains_key(sa) && h[sa] == u);
                assert(h.contains_key(sc) && h[sc] == v);
                if a != sa {
                    assert(h[a] != h[sa]);
                }
                if c != sc {
                    assert(h[c] != h[sc]);
                }
            }
            r.push((a, c, b));
            i = i + 1;
        }
        proof {
            self.lemma_counts();
            assert(r@ =~= self.bond_list());
            assert forall|k: int| #![trigger r@[k]] 0 <= k < r@.len() implies
                self.bond_map().contains_key(pair(r@[k].0, r@[k].1))
                && self.bond_map()[pair(r@[k].0, r@[k].1)] == r@[k].2 by {
                let p = pair(r@[k].0, r@[k].1);
                assert(es@[k].0 != es@[k].1);
                assert(r@[k].0 != r@[k].1);
                assert(pair(h[p.0], h[p.1]) == pair(es@[k].0, es@[k].1));
            }
            assert forall|p: (usize, usize)| self.bond_map().contains_key(p) implies
                exists|i: int| 0 <= i < r@.len() && #[trigger] pair(r@[i].0, r@[i].1) == p by {
                let k = pair(h[p.0], h[p.1]);
                assert(e.contains_key(k));
                let i = choose|i: int| 0 <= i < es@.len() && #[trigger] pair(es@[i].0, es@[i].1) == k;
                assert(r@[i].2 == es@[i].2);
                assert(h[p.0] != h[p.1]);
                if es@[i].0 == h[p.0] {
                    assert(r@[i].0 == p.0);
                    assert(r@[i].1 == p.1);
                } else {
                    assert(r@[i].0 == p.1);
                    assert(r@[i].1 == p.0);
                }
                assert(pair(r@[i].0, r@[i].1) == p);
            }
            assert forall|x: int, y: int| 0 <= x < y < r@.len() implies
                pair(r@[x].0, r@[x].1) != pair(r@[y].0, r@[y].1) by {
                assert(pair(es@[x].0, es@[x].1) != pair(es@[y].0, es@[y].1));
            }
        }
        r
    }

    /// Write access to the bond between the atoms `sn1` and `sn2`, where both
    /// exist and are bonded.
    pub fn get_bond_mut(&mut self, sn1: usize, sn2: usize) -> (r: Option<&mut Bond>)
        requires
            old(self).wf(),
        ensures
            final(self).wf(),
            r is Some <==> old(self).bond_map().contains_key(pair(sn1, sn2)),
            !old(self).atom_map().contains_key(sn1) || !old(self).atom_map().contains_key(sn2) ==> r is None,
            final(self).atom_map() == old(self).atom_map(),
            final(self).name() == old(self).name(),
            final(self).lattice_view() == old(self).lattice_view(),
            match r {
                Some(b) => *b == old(self).bond_map()[pair(sn1, sn2)]
                    && final(self).bond_map() == old(self).bond_map().insert(pair(sn1, sn2), *final(b)),
                None => final(self).bond_map() == old(self).bond_map(),
            },
    {
        let ghost h = self.handles();
        match right_of(&self.mapping, sn1) {
            Some(n1) => match right_of(&self.mapping, sn2) {
                Some(n2) => {
                    proof {
                        assert(sn1 == sn2 || h[sn1] != h[sn2]);
                        let p = pair(sn1, sn2);
                        assert(pair(h[p.0], h[p.1]) == pair(n1, n2));
                    }
                    if has_edge(&self.graph, n1, n2) {
                        proof {
                            let before = *self;
                            let k = pair(n1, n2);
                            assert(sn1 != sn2);
                            assert forall|m2: Molecule, x: Bond| #![trigger m2.wf(), before.edges().insert(k, x)]
                                m2.handles() == before.handles()
                                && m2.nodes() == before.nodes()
                                && m2.edges() == before.edges().insert(k, x)
                                && graph_pairs_indexed(m2.graph)
                                && m2.name == before.name
                                implies m2.wf() && m2.atom_map() == before.atom_map()
                                    && m2.bond_map() == before.bond_map().insert(pair(sn1, sn2), x) by {
                                assert(m2.edges().dom() =~= before.edges().dom());
                                assert forall|q: (usize, usize)| #[trigger] m2.edges().contains_key(q) implies
                                    q.0 < q.1 && m2.nodes().contains_key(q.0) && m2.nodes().contains_key(q.1) by {
                                    assert(before.edges().contains_key(q));
                                }
                                assert(m2.atom_map() =~= before.atom_map());
                                assert forall|p: (usize, usize)| #[trigger] m2.bond_map().contains_key(p) ==
                                    before.bond_map().insert(pair(sn1, sn2), x).contains_key(p) by {
                                    if p.0 < p.1 && h.contains_key(p.0) && h.contains_key(p.1) && pair(h[p.0], h[p.1]) == k {
                                        assert(p == pair(sn1, sn2));
                                    }
                                }
                                assert forall|p: (usize, usize)| #[trigger] m2.bond_map().contains_key(p) implies
                                    m2.bond_map()[p] == before.bond_map().insert(pair(sn1, sn2), x)[p] by {
                                    if pair(h[p.0], h[p.1]) == k {
                                        assert(p == pair(sn1, sn2));
                                    }
                                }
                                assert(m2.bond_map() =~= before.bond_map().insert(pair(sn1, sn2), x));
                            }
                        }
                        Some(edge_mut(&mut self.graph, n1, n2))
                    } else {
                        None
                    }
                },
                None => None,
            },
            None => None,
        }
    }

    /// Sets the position of the atom `sn`.
    pub fn set_position(&mut self, sn: usize, position: Point3)
        requires
            old(self).wf(),
            old(self).atom_map().contains_key(sn),
        ensures
            final(self).wf(),
            final(self).atom_map() == old(self).atom_map().insert(sn, with_position(old(self).atom_map()[sn], position)),
            final(self).bond_map() == old(self).bond_map(),
            final(self).name() == old(self).name(),
            final(self).lattice_view() == old(self).lattice_view(),
    {
        let ghost h = self.handles();
        let n = right_of(&self.mapping, sn).unwrap();
        let a = node_mut(&mut self.graph, n);
        a.set_position(position);
        proof {
            assert(self.nodes().dom() =~= old(self).nodes().dom());
            self.lemma_same_nodes(*old(self));
            assert(self.atom_map() =~= old(self).atom_map().insert(sn, with_position(old(self).atom_map()[sn], position)));
            assert(self.bond_map() =~= old(self).bond_map());
        }
    }

    /// Sets the symbol of the atom `sn`; its atomic number is left as it is.
    pub fn set_symbol(&mut self, sn: usize, symbol: &str)
        requires
            old(self).wf(),
            old(self).atom_map().contains_key(sn),
        ensures
            final(self).wf(),
            final(self).atom_map().dom() == old(self).atom_map().dom(),
            forall|s: usize| #[trigger] old(self).atom_map().contains_key(s) && s != sn ==>
                final(self).atom_map()[s] == old(self).atom_map()[s],
            final(self).atom_map()[sn].symbol@ == symbol@,
            final(self).atom_map()[sn].number == old(self).atom_map()[sn].number,
            final(self).atom_map()[sn].position == old(self).atom_map()[sn].position,
            final(self).atom_map()[sn].freezing == old(self).atom_map()[sn].freezing,
            final(self).bond_map() == old(self).bond_map(),
            final(self).name() == old(self).name(),
            final(self).lattice_view() == old(self).lattice_view(),
    {
        let n = right_of(&self.mapping, sn).unwrap();
        let a = node_mut(&mut self.graph, n);
        a.set_symbol(symbol);
        proof {
            assert(self.nodes().dom() =~= old(self).nodes().dom());
            self.lemma_same_nodes(*old(self));
            assert(self.atom_map().dom() =~= old(self).atom_map().dom());
            assert(self.bond_map() =~= old(self).bond_map());
        }
    }

    /// A change of the atoms' values alone keeps the molecule well formed.
    proof fn lemma_same_nodes(&self, before: Molecule)
        requires
            before.wf(),
            self.handles() == before.handles(),
            self.nodes().dom() == before.nodes().dom(),
            self.edges() == before.edges(),
            graph_pairs_indexed(self.graph) == graph_pairs_indexed(before.graph),
        ensures
            self.wf(),
    {
        let h = self.handles();
        assert forall|m: usize| #[trigger] self.nodes().contains_key(m) implies
            h.contains_key(serial_of(h, m)) && h[serial_of(h, m)] == m by {
            assert(before.nodes().contains_key(m));
        }
        assert forall|s: usize| #[trigger] h.contains_key(s) implies self.nodes().contains_key(h[s]) by {
            assert(before.nodes().contains_key(h[s]));
        }
        assert forall|k: (usize, usize)| #[trigger] self.edges().contains_key(k) implies
            k.0 < k.1 && self.nodes().contains_key(k.0) && self.nodes().contains_key(k.1) by {
            assert(before.edges().contains_key(k));
            assert(before.nodes().contains_key(k.0));
            assert(before.nodes().contains_key(k.1));
        }
    }

    /// Moves the atom `sn` towards `position`, its frozen coordinates kept.
    fn update_position_of(&mut self, sn: usize, position: Point3)
        requires
            old(self).wf(),
            old(self).atom_map().contains_key(sn),
        ensures
            final(self).wf(),
            final(self).atom_map() == old(self).atom_map().insert(sn, with_update(old(self).atom_map()[sn], position)),
            final(self).bond_map() == old(self).bond_map(),
            final(self).name() == old(self).name(),
            final(self).lattice_view() == old(self).lattice_view(),
    {
        let n = right_of(&self.mapping, sn).unwrap();
        let a = node_mut(&mut self.graph, n);
        a.update_position(position);
        proof {
            assert(self.nodes().dom() =~= old(self).nodes().dom());
            self.lemma_same_nodes(*old(self));
            assert(self.atom_map() =~= old(self).atom_map().insert(sn, with_update(old(self).atom_map()[sn], position)));
            assert(self.bond_map() =~= old(self).bond_map());
        }
    }

    /// Sets the positions of the atoms in ascending order of serial number,
    /// one value each, as far as both lists go.
    pub fn set_positions(&mut self, positions: &[Point3])
        requires
            old(self).wf(),
        ensures
            final(self).wf(),
            final(self).atom_map().dom() == old(self).atom_map().dom(),
            forall|i: int| 0 <= i < old(self).serial_order().len() ==>
                #[trigger] final(self).atom_map()[old(self).serial_order()[i]] == (if i < positions@.len() {
                    with_position(old(self).atom_map()[old(self).serial_order()[i]], positions@[i])
                } else {
                    old(self).atom_map()[old(self).serial_order()[i]]
                }),
            final(self).bond_map() == old(self).bond_map(),
            final(self).name() == old(self).name(),
            final(self).lattice_view() == old(self).lattice_view(),
    {
        let sns = self.serial_numbers();
        let ghost orig = self.atom_map();
        let mut i: usize = 0;
        while i < sns.len() && i < positions.len()
            invariant
                self.wf(),
                0 <= i <= sns@.len(),
                i <= positions@.len(),
                lists_in_order(sns@, orig.dom()),
                sns@ == old(self).serial_order(),
                orig == old(self).atom_map(),
                self.atom_map().dom() == orig.dom(),
                self.bond_map() == old(self).bond_map(),
                self.name() == old(self).name(),
                self.lattice_view() == old(self).lattice_view(),
                forall|k: int| 0 <= k < sns@.len() ==> #[trigger] self.atom_map()[sns@[k]] == (if k < i {
                    with_position(orig[sns@[k]], positions@[k])
                } else {
                    orig[sns@[k]]
                }),
            decreases sns@.len() - i,
        {
            proof {
                assert(sns@.contains(sns@[i as int]));
            }
            self.set_position(sns[i], positions[i]);
            proof {
                assert(self.atom_map().dom() =~= orig.dom());
                assert forall|k: int| 0 <= k < sns@.len() implies #[trigger] self.atom_map()[sns@[k]] == (if k < i + 1 {
                    with_position(orig[sns@[k]], positions@[k])
                } else {
                    orig[sns@[k]]
                }) by {
                    if k != i {
                        assert(sns@[k] != sns@[i as int]);
                    }
                }
            }
            i = i + 1;
        }
        proof {
            assert(sns@ == old(self).serial_order());
            assert(i == sns@.len() || i == positions@.len());
        }
    }

    /// Moves the atoms in ascending order of serial number towards the given
    /// positions, one value each, as far as both lists go; frozen coordinates
    /// are kept.
    pub fn update_positions(&mut self, positions: &[Point3])
        requires
            old(self).wf(),
        ensures
            final(self).wf(),
            final(self).atom_map().dom() == old(self).atom_map().dom(),
            forall|i: int| 0 <= i < old(self).serial_order().len() ==>
                #[trigger] final(self).atom_map()[old(self).serial_order()[i]] == (if i < positions@.len() {
                    with_update(old(self).atom_map()[old(self).serial_order()[i]], positions@[i])
                } else {
                    old(self).atom_map()[old(self).serial_order()[i]]
                }),
            final(self).bond_map() == old(self).bond_map(),
            final(self).name() == old(self).name(),
            final(self).lattice_view() == old(self).lattice_view(),
    {
        let sns = self.serial_numbers();
        let ghost orig = self.atom_map();
        let mut i: usize = 0;
        while i < sns.len() && i < positions.len()
            invariant
                self.wf(),
                0 <= i <= sns@.len(),
                i <= positions@.len(),
                lists_in_order(sns@, orig.dom()),
                sns@ == old(self).serial_order(),
                orig == old(self).atom_map(),
                self.atom_map().dom() == orig.dom(),
                self.bond_map() == old(self).bond_map(),
                self.name() == old(self).name(),
                self.lattice_view() == old(self).lattice_view(),
                forall|k: int| 0 <= k < sns@.len() ==> #[trigger] self.atom_map()[sns@[k]] == (if k < i {
                    with_update(orig[sns@[k]], positions@[k])
                } else {
                    orig[sns@[k]]
                }),
            decreases sns@.len() - i,
        {
            proof {
                assert(sns@.contains(sns@[i as int]));
            }
            self.update_position_of(sns[i], positions[i]);
            proof {
                assert(self.atom_map().dom() =~= orig.dom());
                assert forall|k: int| 0 <= k < sns@.len() implies #[trigger] self.atom_map()[sns@[k]] == (if k < i + 1 {
                    with_update(orig[sns@[k]], positions@[k])
                } else {
                    orig[sns@[k]]
                }) by {
                    if k != i {
                        assert(sns@[k] != sns@[i as int]);
                    }
                }
            }
            i = i + 1;
        }
        proof {
            assert(sns@ == old(self).serial_order());
            assert(i == sns@.len() || i == positions@.len());
        }
    }

    /// Sets the symbols of the atoms in ascending order of serial number, one
    /// value each, as far as both lists go; atomic numbers are left as they are.
    pub fn set_symbols(&mut self, symbols: &[&str])
        requires
            old(self).wf(),
        ensures
            final(self).wf(),
            final(self).atom_map().dom() == old(self).atom_map().dom(),
            forall|i: int| 0 <= i < old(self).serial_order().len() ==> {
                let s = #[trigger] old(self).serial_order()[i];
                &&& final(self).atom_map()[s].symbol@ == (if i < symbols@.len() {
                    symbols@[i]@
                } else {
                    old(self).atom_map()[s].symbol@
                })
                &&& final(self).atom_map()[s].number == old(self).atom_map()[s].number
                &&& final(self).atom_map()[s].position == old(self).atom_map()[s].position
                &&& final(self).atom_map()[s].freezing == old(self).atom_map()[s].freezing
            },
            final(self).bond_map() == old(self).bond_map(),
            final(self).name() == old(self).name(),
            final(self).lattice_view() == old(self).lattice_view(),
    {
        let sns = self.serial_numbers();
        let ghost orig = self.atom_map();
        let mut i: usize = 0;
        while i < sns.len() && i < symbols.len()
            invariant
                self.wf(),
                0 <= i <= sns@.len(),
                i <= symbols@.len(),
                lists_in_order(sns@, orig.dom()),
                sns@ == old(self).serial_order(),
                orig == old(self).atom_map(),
                self.atom_map().dom() == orig.dom(),
                self.bond_map() == old(self).bond_map(),
                self.name() == old(self).name(),
                self.lattice_view() == old(self).lattice_view(),
                forall|k: int| 0 <= k < sns@.len() ==> {
                    let s = #[trigger] sns@[k];
                    &&& self.atom_map()[s].symbol@ == (if k < i { symbols@[k]@ } else { orig[s].symbol@ })
                    &&& self.atom_map()[s].number == orig[s].number
                    &&& self.atom_map()[s].position == orig[s].position
                    &&& self.atom_map()[s].freezing == orig[s].freezing
                },
            decreases sns@.len() - i,
        {
            proof {
                assert(sns@.contains(sns@[i as int]));
            }
            let ghost prev = self.atom_map();
            self.set_symbol(sns[i], symbols[i]);
            proof {
                assert forall|k: int| 0 <= k < sns@.len() implies {
                    let s = #[trigger] sns@[k];
                    &&& self.atom_map()[s].symbol@ == (if k < i + 1 { symbols@[k]@ } else { orig[s].symbol@ })
                    &&& self.atom_map()[s].number == orig[s].number
                    &&& self.atom_map()[s].position == orig[s].position
                    &&& self.atom_map()[s].freezing == orig[s].freezing
                } by {
                    assert(sns@.contains(sns@[k]));
                    assert(prev.contains_key(sns@[k]));
                    if k != i {
                        assert(sns@[k] != sns@[i as int]);
                    }
                }
            }
            i = i + 1;
        }
        proof {
            assert(sns@ == old(self).serial_order());
            assert(i == sns@.len() || i == symbols@.len());
        }
    }

    /// Sets the position of each listed atom in turn.
    pub fn set_positions_from(&mut self, selected: &[(usize, Point3)])
        requires
            old(self).wf(),
            forall|i: int| 0 <= i < selected@.len() ==> old(self).atom_map().contains_key(#[trigger] selected@[i].0),
        ensures
            final(self).wf(),
            final(self).atom_map() == positions_applied(old(self).atom_map(), selected@),
            final(self).bond_map() == old(self).bond_map(),
            final(self).name() == old(self).name(),
            final(self).lattice_view() == old(self).lattice_view(),
    {
        let mut i: usize = 0;
        while i < selected.len()
            invariant
                self.wf(),
                0 <= i <= selected@.len(),
                forall|k: int| 0 <= k < selected@.len() ==> old(self).atom_map().contains_key(#[trigger] selected@[k].0),
                self.atom_map() == positions_applied(old(self).atom_map(), selected@.take(i as int)),
                self.atom_map().dom() == old(self).atom_map().dom(),
                self.bond_map() == old(self).bond_map(),
                self.name() == old(self).name(),
                self.lattice_view() == old(self).lattice_view(),
            decreases selected@.len() - i,
        {
            let (sn, p) = selected[i];
            proof {
                assert(old(self).atom_map().contains_key(selected@[i as int].0));
                assert(selected@.take(i + 1).drop_last() == selected@.take(i as int));
            }
            self.set_position(sn, p);
            proof {
                assert(self.atom_map().dom() =~= old(self).atom_map().dom());
            }
            i = i + 1;
        }
        proof {
            assert(selected@.take(selected@.len() as int) == selected@);
        }
    }

    /// Adds each listed atom in turn, as `add_atom` does.
    pub fn add_atoms_from(&mut self, atoms: Vec<(usize, Atom)>)
        requires
            old(self).wf(),
            atoms_added(old(self).atom_map(), atoms@).len() < MAX_NODES,
        ensures
            final(self).wf(),
            final(self).atom_map() == atoms_added(old(self).atom_map(), atoms@),
            final(self).bond_map() == old(self).bond_map(),
            final(self).name() == old(self).name(),
            final(self).lattice_view() == old(self).lattice_view(),
    {
        let ghost orig = atoms@;
        let mut rest = atoms;
        let total: usize = rest.len();
        let mut i: usize = 0;
        proof {
            old(self).lemma_counts();
            assert(rest@ == orig.skip(0));
        }
        while rest.len() > 0
            invariant
                self.wf(),
                i + rest@.len() == orig.len(),
                rest@ == orig.skip(i as int),
                self.atom_map() == atoms_added(old(self).atom_map(), orig.take(i as int)),
                old(self).atom_map().dom().finite(),
                orig.len() == total,
                atoms_added(old(self).atom_map(), orig).len() < MAX_NODES,
                self.bond_map() == old(self).bond_map(),
                self.name() == old(self).name(),
                self.lattice_view() == old(self).lattice_view(),
            decreases rest@.len(),
        {
            let ghost before = rest@;
            let (sn, a) = rest.remove(0);
            proof {
                assert(before[0] == orig[i as int]);
                assert(orig.take(i + 1).drop_last() == orig.take(i as int));
                assert(orig.take(i + 1).last() == orig[i as int]);
                self.lemma_counts();
                let prev = atoms_added(old(self).atom_map(), orig.take(i as int));
                lemma_atoms_added_prefix(old(self).atom_map(), orig, i + 1);
                lemma_atoms_added_dom(old(self).atom_map(), orig.take(i as int));
                if !prev.contains_key(sn) {
                    assert(prev.insert(sn, a).dom() =~= prev.dom().insert(sn));
                    assert(atoms_added(old(self).atom_map(), orig.take(i + 1)) == prev.insert(sn, a));
                }
            }
            self.add_atom(sn, a);
            proof {
                assert(rest@ =~= orig.skip(i + 1));
            }
            i = i + 1;
        }
        proof {
            assert(orig.take(orig.len() as int) == orig);
        }
    }

    /// Adds each listed bond in turn, as `add_bond` does.
    pub fn add_bonds_from(&mut self, bonds: &[(usize, usize, Bond)])
        requires
            old(self).wf(),
            forall|i: int| 0 <= i < bonds@.len() ==> {
                let t = #[trigger] bonds@[i];
                old(self).atom_map().contains_key(t.0) && old(self).atom_map().contains_key(t.1) && t.0 != t.1
            },
            old(self).bond_map().len() + bonds@.len() < MAX_EDGES,
        ensures
            final(self).wf(),
            final(self).atom_map() == old(self).atom_map(),
            final(self).bond_map() == bonds_added(old(self).bond_map(), bonds@),
            final(self).name() == old(self).name(),
            final(self).lattice_view() == old(self).lattice_view(),
    {
        let mut i: usize = 0;
        while i < bonds.len()
            invariant
                self.wf(),
                0 <= i <= bonds@.len(),
                forall|k: int| 0 <= k < bonds@.len() ==> {
                    let t = #[trigger] bonds@[k];
                    old(self).atom_map().contains_key(t.0) && old(self).atom_map().contains_key(t.1) && t.0 != t.1
                },
                self.atom_map() == old(self).atom_map(),
                self.bond_map() == bonds_added(old(self).bond_map(), bonds@.take(i as int)),
                self.bond_map().len() <= old(self).bond_map().len() + i,
                old(self).bond_map().len() + bonds@.len() < MAX_EDGES,
                self.name() == old(self).name(),
                self.lattice_view() == old(self).lattice_view(),
            decreases bonds@.len() - i,
        {
            let (a, b, bond) = bonds[i];
            proof {
                assert(bonds@[i as int] == (a, b, bond));
                assert(bonds@.take(i + 1).drop_last() == bonds@.take(i as int));
            }
            proof {
                self.lemma_counts();
            }
            let ghost prev = self.bond_map();
            self.add_bond(a, b, bond);
            proof {
                if prev.contains_key(pair(a, b)) {
                    assert(prev.insert(pair(a, b), bond).dom() =~= prev.dom());
                } else {
                    assert(prev.insert(pair(a, b), bond).dom() =~= prev.dom().insert(pair(a, b)));
                }
            }
            i = i + 1;
        }
        proof {
            assert(bonds@.take(bonds@.len() as int) == bonds@);
        }
    }

    /// Removes each listed atom, with its bonds; serial numbers without an
    /// atom are passed over.
    pub fn remove_atoms_from(&mut self, serials: &[usize])
        requires
            old(self).wf(),
        ensures
            final(self).wf(),
            final(self).atom_map() == old(self).atom_map().remove_keys(serials@.to_set()),
            final(self).bond_map() == bonds_clear_of(old(self).bond_map(), serials@.to_set()),
            final(self).name() == old(self).name(),
            final(self).lattice_view() == old(self).lattice_view(),
    {
        let mut i: usize = 0;
        proof {
            assert(old(self).atom_map().remove_keys(serials@.take(0).to_set()) =~= old(self).atom_map());
            assert(bonds_clear_of(old(self).bond_map(), serials@.take(0).to_set()) =~= old(self).bond_map());
        }
        while i < serials.len()
            invariant
                self.wf(),
                0 <= i <= serials@.len(),
                self.atom_map() == old(self).atom_map().remove_keys(serials@.take(i as int).to_set()),
                self.bond_map() == bonds_clear_of(old(self).bond_map(), serials@.take(i as int).to_set()),
                self.name() == old(self).name(),
                self.lattice_view() == old(self).lattice_view(),
            decreases serials@.len() - i,
        {
            let x = serials[i];
            let ghost s0 = serials@.take(i as int).to_set();
            let ghost s1 = serials@.take(i + 1).to_set();
            proof {
                assert(serials@.take(i + 1) == serials@.take(i as int).push(x));
                assert(s1 =~= s0.insert(x)) by {
                    assert forall|y: usize| s1.contains(y) <==> s0.insert(x).contains(y) by {
                        if serials@.take(i as int).contains(y) {
                            let k = choose|k: int| 0 <= k < i && serials@.take(i as int)[k] == y;
                            assert(serials@.take(i + 1)[k] == y);
                        }
                        if serials@.take(i + 1).contains(y) {
                            let t1 = serials@.take(i + 1);
                            let k = choose|k: int| 0 <= k < t1.len() && t1[k] == y;
                            if k < i {
                                assert(serials@.take(i as int)[k] == y);
                            }
                        }
                        assert(serials@.take(i + 1)[i as int] == x);
                    }
                }
            }
            self.remove_atom(x);
            proof {
                assert(self.atom_map() =~= old(self).atom_map().remove_keys(s1));
                let ob = old(self).bond_map();
                assert(self.bond_map() =~= bonds_clear_of(ob, s1));
            }
            i = i + 1;
        }
        proof {
            assert(serials@.take(serials@.len() as int) == serials@);
        }
    }

    /// Removes the bond of each listed pair of atoms, where there is one.
    pub fn remove_bonds_from(&mut self, pairs: &[(usize, usize)])
        requires
            old(self).wf(),
            forall|i: int| 0 <= i < pairs@.len() ==> {
                let t = #[trigger] pairs@[i];
                old(self).atom_map().contains_key(t.0) && old(self).atom_map().contains_key(t.1)
            },
        ensures
            final(self).wf(),
            final(self).atom_map() == old(self).atom_map(),
            final(self).bond_map() == old(self).bond_map().remove_keys(pair_keys(pairs@)),
            final(self).name() == old(self).name(),
            final(self).lattice_view() == old(self).lattice_view(),
    {
        let mut i: usize = 0;
        proof {
            assert(pair_keys(pairs@.take(0)) =~= Set::<(usize, usize)>::empty());
            assert(old(self).bond_map().remove_keys(pair_keys(pairs@.take(0))) =~= old(self).bond_map());
        }
        while i < pairs.len()
            invariant
                self.wf(),
                0 <= i <= pairs@.len(),
                forall|k: int| 0 <= k < pairs@.len() ==> {
                    let t = #[trigger] pairs@[k];
                    old(self).atom_map().contains_key(t.0) && old(self).atom_map().contains_key(t.1)
                },
                self.atom_map() == old(self).atom_map(),
                self.bond_map() == old(self).bond_map().remove_keys(pair_keys(pairs@.take(i as int))),
                self.name() == old(self).name(),
                self.lattice_view() == old(self).lattice_view(),
            decreases pairs@.len() - i,
        {
            let (a, b) = pairs[i];
            let ghost s0 = pair_keys(pairs@.take(i as int));
            let ghost s1 = pair_keys(pairs@.take(i + 1));
            proof {
                assert(pairs@[i as int] == (a, b));
                let m0 = pairs@.take(i as int).map_values(|p: (usize, usize)| pair(p.0, p.1));
                let m1 = pairs@.take(i + 1).map_values(|p: (usize, usize)| pair(p.0, p.1));
                assert(m1 == m0.push(pair(a, b)));
                assert(s1 =~= s0.insert(pair(a, b))) by {
                    assert forall|y: (usize, usize)| s1.contains(y) <==> s0.insert(pair(a, b)).contains(y) by {
                        if m0.contains(y) {
                            let k = choose|k: int| 0 <= k < m0.len() && m0[k] == y;
                            assert(m1[k] == y);
                        }
                        if m1.contains(y) {
                            let k = choose|k: int| 0 <= k < m1.len() && m1[k] == y;
                            if k < m0.len() {
                                assert(m0[k] == y);
                            }
                        }
                        assert(m1[m0.len() as int] == pair(a, b));
                    }
                }
            }
            self.remove_bond(a, b);
            proof {
                assert(self.bond_map() =~= old(self).bond_map().remove_keys(s1));
            }
            i = i + 1;
        }
        proof {
            assert(pairs@.take(pairs@.len() as int) == pairs@);
        }
    }
}

impl Default for Molecule {
    /// An empty molecule with an empty name.
    fn default() -> (r: Molecule)
        ensures
            r.wf(),
            r.atom_map() == Map::<usize, Atom>::empty(),
            r.bond_map() == Map::<(usize, usize), Bond>::empty(),
            r.name() == Seq::<char>::empty(),
            r.lattice_view() is None,
    {
        proof {
            reveal_strlit("");
        }
        Molecule::new("")
    }
}

} // verus!

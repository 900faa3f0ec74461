//! Atom and bond records.
use vstd::prelude::*;
use vstd::string::*;

verus! {

/// A point in space. Each coordinate is carried as the bit pattern of an
/// IEEE-754 double; the library copies coordinates and never computes with them.
#[derive(Clone, Copy, Debug, PartialEq, Eq, Structural)]
pub struct Point3 {
    pub x: u64,
    pub y: u64,
    pub z: u64,
}

/// Which coordinates of an atom are frozen.
#[derive(Clone, Copy, Debug, PartialEq, Eq, Structural)]
pub struct Freezing {
    pub x: bool,
    pub y: bool,
    pub z: bool,
}

/// A coordinate taken from `new` unless it is frozen, in which case `cur` stays.
pub open spec fn keep_frozen(frozen: bool, cur: u64, new: u64) -> u64 {
    if frozen { cur } else { new }
}

/// The position that an update towards `p` leaves, frozen coordinates kept.
pub open spec fn updated_position(cur: Point3, p: Point3, f: Freezing) -> Point3 {
    Point3 {
        x: keep_frozen(f.x, cur.x, p.x),
        y: keep_frozen(f.y, cur.y, p.y),
        z: keep_frozen(f.z, cur.z, p.z),
    }
}

/// An atom: element symbol, atomic number, position and frozen coordinates.
#[derive(Clone, Debug)]
pub struct Atom {
    pub symbol: String,
    pub number: usize,
    pub position: Point3,
    pub freezing: Freezing,
}

impl Atom {
    /// An atom of the given element at the origin, with no frozen coordinate.
    pub fn new(symbol: &str, number: usize) -> (r: Atom)
        ensures
            r.symbol@ == symbol@,
            r.number == number,
            r.position == (Point3 { x: 0, y: 0, z: 0 }),
            r.freezing == (Freezing { x: false, y: false, z: false }),
    {
        Atom {
            symbol: String::from_str(symbol),
            number,
            position: Point3 { x: 0, y: 0, z: 0 },
            freezing: Freezing { x: false, y: false, z: false },
        }
    }

    pub fn symbol(&self) -> (r: &str)
        ensures
            r@ == self.symbol@,
    {
        self.symbol.as_str()
    }

    pub fn number(&self) -> (r: usize)
        ensures
            r == self.number,
    {
        self.number
    }

    pub fn position(&self) -> (r: Point3)
        ensures
            r == self.position,
    {
        self.position
    }

    pub fn set_position(&mut self, p: Point3)
        ensures
            final(self).position == p,
            final(self).symbol == old(self).symbol,
            final(self).number == old(self).number,
            final(self).freezing == old(self).freezing,
    {
        self.position = p;
    }

    /// Moves the atom towards `p`, leaving its frozen coordinates unchanged.
    pub fn update_position(&mut self, p: Point3)
        ensures
            final(self).position == updated_position(old(self).position, p, old(self).freezing),
            final(self).symbol == old(self).symbol,
            final(self).number == old(self).number,
            final(self).freezing == old(self).freezing,
    {
        let cur = self.position;
        let f = self.freezing;
        self.position = Point3 {
            x: if f.x { cur.x } else { p.x },
            y: if f.y { cur.y } else { p.y },
            z: if f.z { cur.z } else { p.z },
        };
    }

    /// Sets the element symbol; the atomic number is left as it is.
    pub fn set_symbol(&mut self, symbol: &str)
        ensures
            final(self).symbol@ == symbol@,
            final(self).position == old(self).position,
            final(self).number == old(self).number,
            final(self).freezing == old(self).freezing,
    {
        self.symbol = String::from_str(symbol);
    }

    pub fn set_freezing(&mut self, f: Freezing)
        ensures
            final(self).freezing == f,
            final(self).position == old(self).position,
            final(self).symbol == old(self).symbol,
            final(self).number == old(self).number,
    {
        self.freezing = f;
    }
}

impl Default for Atom {
    /// A carbon atom at the origin.
    fn default() -> (r: Atom)
        ensures
            r.symbol@ == seq!['C'],
            r.number == 6,
            r.position == (Point3 { x: 0, y: 0, z: 0 }),
            r.freezing == (Freezing { x: false, y: false, z: false }),
    {
        proof {
            reveal_strlit("C");
        }
        Atom::new("C", 6)
    }
}

/// The order of a chemical bond.
#[derive(Clone, Copy, Debug, PartialEq, Eq, Structural)]
pub enum BondKind {
    Dummy,
    Partial,
    Single,
    Aromatic,
    Double,
    Triple,
    Quadruple,
}

/// A chemical bond between two atoms.
#[derive(Clone, Copy, Debug, PartialEq, Eq, Structural)]
pub struct Bond {
    pub kind: BondKind,
}

impl Bond {
    pub fn new(kind: BondKind) -> (r: Bond)
        ensures
            r.kind == kind,
    {
        Bond { kind }
    }

    pub fn single() -> (r: Bond)
        ensures
            r.kind == BondKind::Single,
    {
        Bond { kind: BondKind::Single }
    }

    pub fn double() -> (r: Bond)
        ensures
            r.kind == BondKind::Double,
    {
        Bond { kind: BondKind::Double }
    }

    pub fn triple() -> (r: Bond)
        ensures
            r.kind == BondKind::Triple,
    {
        Bond { kind: BondKind::Triple }
    }

    pub fn aromatic() -> (r: Bond)
        ensures
            r.kind == BondKind::Aromatic,
    {
        Bond { kind: BondKind::Aromatic }
    }

    pub fn kind(&self) -> (r: BondKind)
        ensures
            r == self.kind,
    {
        self.kind
    }
}

impl Default for Bond {
    /// A single bond.
    fn default() -> (r: Bond)
        ensures
            r.kind == BondKind::Single,
    {
        Bond::single()
    }
}

} // verus!

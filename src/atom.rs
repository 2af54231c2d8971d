//! Atoms, and the capability that the spatial grid needs of what it holds.

use vstd::prelude::*;

verus! {

/// What the spatial grid needs of an object: a stable id, a position, a
/// diameter, and a way to move it.
pub trait Spatial2D: Sized {
    /// The object's id.
    spec fn key(&self) -> u32;

    /// The x coordinate of the object's centre.
    spec fn pos_x(&self) -> int;

    /// The y coordinate of the object's centre.
    spec fn pos_y(&self) -> int;

    /// The object's diameter.
    spec fn extent(&self) -> int;

    /// The same object, with its centre at `(x, y)`.
    spec fn moved_to(&self, x: int, y: int) -> Self;

    /// Moving an object changes its position and nothing the grid reads.
    proof fn lemma_moved_to(&self, x: int, y: int)
        requires
            i64::MIN <= x <= i64::MAX,
            i64::MIN <= y <= i64::MAX,
        ensures
            self.moved_to(x, y).key() == self.key(),
            self.moved_to(x, y).extent() == self.extent(),
            self.moved_to(x, y).pos_x() == x,
            self.moved_to(x, y).pos_y() == y,
    ;

    fn id(&self) -> (r: u32)
        ensures
            r == self.key(),
    ;

    fn x(&self) -> (r: i64)
        ensures
            r == self.pos_x(),
    ;

    fn y(&self) -> (r: i64)
        ensures
            r == self.pos_y(),
    ;

    fn diameter(&self) -> (r: i64)
        ensures
            r == self.extent(),
    ;

    fn set_position(&mut self, x: i64, y: i64)
        ensures
            *final(self) == old(self).moved_to(x as int, y as int),
    ;
}

/// A point particle: identity, species, state, position and diameter.
#[derive(Clone, Copy, Debug, PartialEq, Eq)]
pub struct Atom {
    pub id: u32,
    pub species: u8,
    pub state: u8,
    pub x: i64,
    pub y: i64,
    pub diameter: i64,
}

impl Atom {
    /// A new atom with the given species, state, position, diameter and id.
    pub fn new(species: u8, state: u8, x: i64, y: i64, diameter: i64, id: u32) -> (r: Atom)
        ensures
            r == (Atom { id, species, state, x, y, diameter }),
    {
        Atom { id, species, state, x, y, diameter }
    }

    pub fn species(&self) -> (r: u8)
        ensures
            r == self.species,
    {
        self.species
    }

    pub fn state(&self) -> (r: u8)
        ensures
            r == self.state,
    {
        self.state
    }

    /// The atom's radius, rounded down to a whole unit.
    pub fn r(&self) -> (r: i64)
        requires
            self.diameter >= 0,
        ensures
            r == self.diameter / 2,
    {
        self.diameter / 2
    }
}

impl Spatial2D for Atom {
    open spec fn key(&self) -> u32 {
        self.id
    }

    open spec fn pos_x(&self) -> int {
        self.x as int
    }

    open spec fn pos_y(&self) -> int {
        self.y as int
    }

    open spec fn extent(&self) -> int {
        self.diameter as int
    }

    open spec fn moved_to(&self, x: int, y: int) -> Atom {
        Atom { x: x as i64, y: y as i64, ..*self }
    }

    proof fn lemma_moved_to(&self, x: int, y: int) {
    }

    fn id(&self) -> (r: u32) {
        self.id
    }

    fn x(&self) -> (r: i64) {
        self.x
    }

    fn y(&self) -> (r: i64) {
        self.y
    }

    fn diameter(&self) -> (r: i64) {
        self.diameter
    }

    fn set_position(&mut self, x: i64, y: i64) {
        self.x = x;
        self.y = y;
    }
}

} // verus!

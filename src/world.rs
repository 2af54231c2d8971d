//! The world: a grid of atoms, a reaction table, a bond ledger and a random
//! stream, advanced one tick at a time.

use vstd::prelude::*;
use ahash::AHashSet;
use rand_xoshiro::Xoshiro256Plus;
use crate::atom::{Atom, Spatial2D};
use crate::chemistry::{Chemistry, Reactant, ReactionResult, RuleKey, lookup};
use crate::geometry::{wrapped, MAX_EXTENT};
use crate::grid::{Grid, GridView, valid_layout, resolved, collisions, is_collision, lemma_objects_in_world, correction, corrected};
use crate::hashed::{bond_keys, bond_keys_new, bond_keys_insert, bond_keys_remove, bond_keys_contains};
use crate::pairs::{ascending, insert_pair, lemma_ascending_unique};
use crate::rng::{seeded_rng, entropy_rng, next_draw};

verus! {

/// Collision resolution passes in one tick, by default.
pub const RESOLUTION_PASSES: u32 = 8;

/// A bond's rest length, in percent of the world's atom diameter.
pub const BOND_LENGTH_PERCENT: i64 = 110;

/// A bond between two atoms: a distance constraint of `rest_length`.
#[derive(Clone, Copy, Debug, PartialEq, Eq, Structural)]
pub struct Bond {
    pub a: u32,
    pub b: u32,
    pub rest_length: i64,
}

/// Why an atom could not be added.
#[derive(Clone, Copy, Debug, PartialEq, Eq, Structural)]
pub enum WorldError {
    /// The position lies outside the world.
    OutOfBounds,
    /// The diameter is not positive, or wider than the world's atoms.
    BadDiameter,
    /// An atom with that id exists already.
    DuplicateId,
}

/// What a world holds.
pub struct WorldView {
    /// The atoms, by id.
    pub atoms: Map<u32, Atom>,
    /// The atoms' ids, ascending.
    pub ids: Seq<u32>,
    /// The bonds, oldest first.
    pub bonds: Seq<Bond>,
    /// The reaction table.
    pub rules: Map<RuleKey, ReactionResult>,
    pub size_x: int,
    pub size_y: int,
    pub temperature: int,
    /// The atom diameter that the world was built for; also its cell size.
    pub diameter: int,
    /// Collision resolution passes per tick.
    pub passes: nat,
}

/// Whether `s` is strictly ascending.
pub open spec fn ascending_ids(s: Seq<u32>) -> bool {
    forall|i: int, j: int| 0 <= i < j < s.len() ==> #[trigger] s[i] < #[trigger] s[j]
}

/// The diffusive step of one axis drawn from `r`: uniform over
/// `[-temperature, temperature)` in steps of 1/2^32 of its width, rounded down.
pub open spec fn displacement(temperature: int, r: u32) -> int {
    (r as int * (2 * temperature)) / 0x1_0000_0000 - temperature
}

/// Atom `a` after its diffusive step drawn from `d`.
pub open spec fn shifted(a: Atom, d: (u32, u32), v: WorldView) -> Atom {
    a.moved_to(
        wrapped(a.pos_x(), displacement(v.temperature, d.0), v.size_x),
        wrapped(a.pos_y(), displacement(v.temperature, d.1), v.size_y),
    )
}

/// The atoms after the atoms `ids` took, in order, their diffusive steps
/// `draws`.
pub open spec fn diffused(v: WorldView, ids: Seq<u32>, draws: Seq<(u32, u32)>) -> Map<u32, Atom>
    decreases ids.len(),
{
    if ids.len() == 0 || draws.len() == 0 {
        v.atoms
    } else {
        let m = diffused(v, ids.drop_last(), draws.drop_last());
        m.insert(ids.last(), shifted(m[ids.last()], draws.last(), v))
    }
}

/// The atoms of a world as a grid sees them.
pub open spec fn grid_view(atoms: Map<u32, Atom>, v: WorldView) -> GridView<Atom> {
    GridView { objects: atoms, size_x: v.size_x, size_y: v.size_y, spacing_x: v.diameter, spacing_y: v.diameter }
}

/// The grid after `n` resolution passes.
pub open spec fn after_passes(g: GridView<Atom>, n: nat) -> GridView<Atom>
    decreases n,
{
    if n == 0 {
        g
    } else {
        let h = after_passes(g, (n - 1) as nat);
        GridView { objects: resolved(h), ..h }
    }
}

/// The pairs found touching during the first `n` resolution passes.
pub open spec fn observed(g: GridView<Atom>, n: nat) -> Set<(u32, u32)>
    decreases n,
{
    if n == 0 {
        Set::empty()
    } else {
        observed(g, (n - 1) as nat) + collisions(after_passes(g, (n - 1) as nat).objects).to_set()
    }
}

/// The pairs of `s` in ascending order.
pub open spec fn in_order(s: Set<(u32, u32)>) -> Seq<(u32, u32)> {
    choose|q: Seq<(u32, u32)>| ascending(q) && forall|p: (u32, u32)| #[trigger] q.contains(p) <==> s.contains(p)
}

pub open spec fn with_state(a: Atom, s: u8) -> Atom {
    Atom { state: s, ..a }
}

pub open spec fn reactant(a: Atom) -> Reactant {
    Reactant(a.species, a.state)
}

/// Whether the atoms `a` and `b` are bonded, in either order.
pub open spec fn bonded(bonds: Seq<Bond>, a: u32, b: u32) -> bool {
    exists|i: int| 0 <= i < bonds.len() && ((#[trigger] bonds[i].a == a && bonds[i].b == b) || (bonds[i].a == b && bonds[i].b == a))
}

/// The touching pair `p` tried against the rules: unless bonded, a
/// combination bonds it and sets both states, an excitation sets both states.
pub open spec fn react_one(atoms: Map<u32, Atom>, bonds: Seq<Bond>, rules: Map<RuleKey, ReactionResult>, rest: i64, p: (u32, u32)) -> (Map<u32, Atom>, Seq<Bond>) {
    if bonded(bonds, p.0, p.1) {
        (atoms, bonds)
    } else {
        match lookup(rules, reactant(atoms[p.0]), reactant(atoms[p.1])) {
            Some(ReactionResult::Combine(s, t)) => (
                atoms.insert(p.0, with_state(atoms[p.0], s)).insert(p.1, with_state(atoms[p.1], t)),
                bonds.push(Bond { a: p.0, b: p.1, rest_length: rest }),
            ),
            Some(ReactionResult::Excite(s, t)) => (
                atoms.insert(p.0, with_state(atoms[p.0], s)).insert(p.1, with_state(atoms[p.1], t)),
                bonds,
            ),
            _ => (atoms, bonds),
        }
    }
}

/// The reaction trial over the pairs, in order.
pub open spec fn reacted(atoms: Map<u32, Atom>, bonds: Seq<Bond>, rules: Map<RuleKey, ReactionResult>, rest: i64, pairs: Seq<(u32, u32)>) -> (Map<u32, Atom>, Seq<Bond>)
    decreases pairs.len(),
{
    if pairs.len() == 0 {
        (atoms, bonds)
    } else {
        let r = reacted(atoms, bonds, rules, rest, pairs.drop_last());
        react_one(r.0, r.1, rules, rest, pairs.last())
    }
}

/// The bond `bd` tried against the rules: a decomposition sets both states
/// and drops the bond; otherwise the bond is kept.
pub open spec fn decompose_one(atoms: Map<u32, Atom>, kept: Seq<Bond>, rules: Map<RuleKey, ReactionResult>, bd: Bond) -> (Map<u32, Atom>, Seq<Bond>) {
    match lookup(rules, reactant(atoms[bd.a]), reactant(atoms[bd.b])) {
        Some(ReactionResult::Decompose(s, t)) => (
            atoms.insert(bd.a, with_state(atoms[bd.a], s)).insert(bd.b, with_state(atoms[bd.b], t)),
            kept,
        ),
        _ => (atoms, kept.push(bd)),
    }
}

/// The decomposition trial over the bonds, in order: the atoms after it and
/// the bonds that stay.
pub open spec fn decomposed(atoms: Map<u32, Atom>, rules: Map<RuleKey, ReactionResult>, bonds: Seq<Bond>) -> (Map<u32, Atom>, Seq<Bond>)
    decreases bonds.len(),
{
    if bonds.len() == 0 {
        (atoms, Seq::empty())
    } else {
        let r = decomposed(atoms, rules, bonds.drop_last());
        decompose_one(r.0, r.1, rules, bonds.last())
    }
}

/// A new bond's rest length in a world built for atoms of `diameter`.
pub open spec fn rest_length(diameter: int) -> int {
    diameter * BOND_LENGTH_PERCENT / 100
}

/// One tick, given the draws of the diffusive steps: diffusion in ascending
/// id order, the resolution passes, the reaction trial over every pair
/// found touching (ascending), then the decomposition trial.
pub open spec fn stepped(v: WorldView, draws: Seq<(u32, u32)>) -> WorldView {
    let g = grid_view(diffused(v, v.ids, draws), v);
    let h = after_passes(g, v.passes);
    let r = reacted(h.objects, v.bonds, v.rules, rest_length(v.diameter) as i64, in_order(observed(g, v.passes)));
    let d = decomposed(r.0, v.rules, r.1);
    WorldView { atoms: d.0, bonds: d.1, ..v }
}

/// Adds `k` to the ascending ids `v`; false, and `v` unchanged, if it is
/// there already.
fn insert_id(v: &mut Vec<u32>, k: u32) -> (r: bool)
    requires
        ascending_ids(old(v)@),
    ensures
        ascending_ids(final(v)@),
        r == !old(v)@.contains(k),
        !r ==> final(v)@ == old(v)@,
        forall|q: u32| #[trigger] final(v)@.contains(q) <==> (old(v)@.contains(q) || q == k),
{
    let mut i: usize = 0;
    while i < v.len() && v[i] < k
        invariant
            ascending_ids(v@),
            v@ == old(v)@,
            i <= v@.len(),
            forall|j: int| 0 <= j < i ==> #[trigger] v@[j] < k,
        decreases v@.len() - i,
    {
        i = i + 1;
    }
    if i < v.len() && v[i] == k {
        assert(v@.contains(k));
        return false;
    }
    let ghost before = v@;
    proof {
        assert(!before.contains(k)) by {
            if before.contains(k) {
                let j = choose|j: int| 0 <= j < before.len() && before[j] == k;
                if j >= i {
                    assert(before[i as int] <= before[j]);
                }
            }
        }
    }
    v.insert(i, k);
    proof {
        assert forall|a: int, b: int| 0 <= a < b < v@.len() implies #[trigger] v@[a] < #[trigger] v@[b] by {
            if b < i {
            } else if a < i && b == i {
            } else if a < i {
                assert(v@[b] == before[b - 1]);
            } else if a == i {
                assert(v@[b] == before[b - 1]);
                if b - 1 > i {
                    assert(before[i as int] < before[b - 1]);
                }
            } else {
                assert(v@[a] == before[a - 1]);
                assert(v@[b] == before[b - 1]);
            }
        }
        assert forall|q: u32| #[trigger] v@.contains(q) <==> (before.contains(q) || q == k) by {
            if v@.contains(q) {
                let a = choose|a: int| 0 <= a < v@.len() && v@[a] == q;
                if a < i {
                    assert(before[a] == q);
                } else if a > i {
                    assert(before[a - 1] == q);
                }
            }
            if before.contains(q) {
                let a = choose|a: int| 0 <= a < before.len() && before[a] == q;
                if a < i {
                    assert(v@[a] == q);
                } else {
                    assert(v@[a + 1] == q);
                }
            }
            if q == k {
                assert(v@[i as int] == q);
            }
        }
    }
    true
}

/// Sets the state of atom `k` in the grid.
fn set_state(g: &mut Grid<Atom>, k: u32, s: u8)
    requires
        old(g).wf(),
        old(g)@.objects.contains_key(k),
    ensures
        final(g).wf(),
        final(g)@ == (GridView { objects: old(g)@.objects.insert(k, with_state(old(g)@.objects[k], s)), ..old(g)@ }),
{
    proof {
        lemma_objects_in_world(g, k);
    }
    let mut a = g.remove(k);
    a.state = s;
    g.push(a);
    proof {
        assert(g@.objects =~= old(g)@.objects.insert(k, with_state(old(g)@.objects[k], s)));
    }
}

/// The diffusive step of one axis drawn from `r`.
fn displacement_of(temperature: i64, r: u32) -> (d: i64)
    requires
        0 <= temperature <= MAX_EXTENT,
    ensures
        d == displacement(temperature as int, r),
        -temperature <= d <= temperature,
{
    assert(0 <= r as int * (2 * temperature) <= 0xffff_ffff * 0x2000_0000) by (nonlinear_arith)
        requires 0 <= r <= 0xffff_ffff, 0 <= temperature <= 0x1000_0000;
    let p = r as i64 * (2 * temperature);
    assert(p / 0x1_0000_0000 <= 2 * temperature) by (nonlinear_arith)
        requires p == r as int * (2 * temperature), 0 <= r < 0x1_0000_0000, 0 <= temperature;
    p / 0x1_0000_0000 - temperature
}

/// The id that the next randomly placed atom gets.
pub open spec fn next_id(v: WorldView) -> int {
    if v.ids.len() == 0 {
        0
    } else {
        v.ids.last() + 1
    }
}

/// A coordinate drawn from `r`, uniform over `[0, size)`.
pub open spec fn scaled(r: u32, size: int) -> int {
    (r as int * size) / 0x1_0000_0000
}

/// A coordinate drawn from `r`.
fn scaled_of(r: u32, size: i64) -> (v: i64)
    requires
        0 < size <= MAX_EXTENT,
    ensures
        v == scaled(r, size as int),
        0 <= v < size,
{
    assert(0 <= r as int * size <= 0xffff_ffff * 0x1000_0000) by (nonlinear_arith)
        requires 0 <= r <= 0xffff_ffff, 0 < size <= 0x1000_0000;
    assert((r as int * size) / 0x1_0000_0000 < size) by (nonlinear_arith)
        requires 0 <= r < 0x1_0000_0000, 0 < size;
    r as i64 * size / 0x1_0000_0000
}

/// A simulated world.
pub struct World {
    size: (i64, i64),
    temperature: i64,
    diameter: i64,
    passes: u32,
    atom_grid: Grid<Atom>,
    ids: Vec<u32>,
    chemistry: Chemistry,
    bonds: Vec<Bond>,
    ledger: AHashSet<(u32, u32)>,
    rng: Xoshiro256Plus,
}

impl View for World {
    type V = WorldView;

    closed spec fn view(&self) -> WorldView {
        WorldView {
            atoms: self.atom_grid@.objects,
            ids: self.ids@,
            bonds: self.bonds@,
            rules: self.chemistry@,
            size_x: self.size.0 as int,
            size_y: self.size.1 as int,
            temperature: self.temperature as int,
            diameter: self.diameter as int,
            passes: self.passes as nat,
        }
    }
}

/// Whether the bonds are well formed for the atoms: two distinct existing
/// atoms each, and no pair bonded twice in either order.
pub open spec fn bonds_ok(bonds: Seq<Bond>, atoms: Map<u32, Atom>) -> bool {
    &&& forall|i: int| 0 <= i < bonds.len() ==> {
        &&& (#[trigger] bonds[i]).a != bonds[i].b
        &&& atoms.contains_key(bonds[i].a)
        &&& atoms.contains_key(bonds[i].b)
    }
    &&& forall|i: int, j: int| 0 <= i < j < bonds.len() ==> {
        &&& !(#[trigger] bonds[i].a == #[trigger] bonds[j].a && bonds[i].b == bonds[j].b)
        &&& !(bonds[i].a == bonds[j].b && bonds[i].b == bonds[j].a)
    }
}

/// The ordered id pairs of the bonds.
pub open spec fn bond_pairs(bonds: Seq<Bond>) -> Set<(u32, u32)> {
    Set::new(|p: (u32, u32)| exists|i: int| 0 <= i < bonds.len() && #[trigger] bonds[i].a == p.0 && bonds[i].b == p.1)
}

/// Whether the world's parameters are such that it can be built.
pub open spec fn world_params(size_x: int, size_y: int, temperature: int, diameter: int) -> bool {
    &&& valid_layout(size_x, size_y, diameter, diameter)
    &&& 0 <= temperature < size_x
    &&& temperature < size_y
}

impl World {
    /// The world's internal consistency.
    pub closed spec fn wf(&self) -> bool {
        &&& self.atom_grid.wf()
        &&& world_params(self.size.0 as int, self.size.1 as int, self.temperature as int, self.diameter as int)
        &&& self.atom_grid@.size_x == self.size.0
        &&& self.atom_grid@.size_y == self.size.1
        &&& self.atom_grid@.spacing_x == self.diameter
        &&& self.atom_grid@.spacing_y == self.diameter
        &&& ascending_ids(self.ids@)
        &&& forall|k: u32| #[trigger] self.ids@.contains(k) <==> self.atom_grid@.objects.contains_key(k)
        &&& bonds_ok(self.bonds@, self.atom_grid@.objects)
        &&& bond_keys(self.ledger) == bond_pairs(self.bonds@)
    }

    /// An empty world of `size_x` by `size_y` units at `temperature`, for
    /// atoms of `particle_size`, with no rules. A nonzero `seed` makes the
    /// random stream reproducible; zero seeds it from the system.
    pub fn new(size_x: i64, size_y: i64, temperature: i64, seed: u64, particle_size: i64) -> (r: World)
        requires
            world_params(size_x as int, size_y as int, temperature as int, particle_size as int),
        ensures
            r.wf(),
            r@.atoms.dom().is_empty(),
            r@.ids.len() == 0,
            r@.bonds.len() == 0,
            r@.rules.dom().is_empty(),
            r@.size_x == size_x,
            r@.size_y == size_y,
            r@.temperature == temperature,
            r@.diameter == particle_size,
            r@.passes == RESOLUTION_PASSES,
    {
        let rng = if seed == 0 { entropy_rng() } else { seeded_rng(seed) };
        let w = World {
            size: (size_x, size_y),
            temperature,
            diameter: particle_size,
            passes: RESOLUTION_PASSES,
            atom_grid: Grid::new(size_x, size_y, particle_size, particle_size),
            ids: Vec::new(),
            chemistry: Chemistry::empty(),
            bonds: Vec::new(),
            ledger: bond_keys_new(),
            rng,
        };
        proof {
            assert(bond_keys(w.ledger) =~= bond_pairs(w.bonds@));
            assert forall|k: u32| #[trigger] w.ids@.contains(k) <==> w.atom_grid@.objects.contains_key(k) by {
                assert(!w.atom_grid@.objects.dom().contains(k));
            }
        }
        w
    }

    /// Replaces the world's reaction table.
    pub fn set_chemistry(&mut self, chemistry: Chemistry)
        requires
            old(self).wf(),
        ensures
            final(self).wf(),
            final(self)@ == (WorldView { rules: chemistry@, ..old(self)@ }),
    {
        self.chemistry = chemistry;
    }

    /// Sets the number of collision resolution passes per tick.
    pub fn set_passes(&mut self, passes: u32)
        requires
            old(self).wf(),
        ensures
            final(self).wf(),
            final(self)@ == (WorldView { passes: passes as nat, ..old(self)@ }),
    {
        self.passes = passes;
    }

    pub fn size_x(&self) -> (r: i64)
        ensures
            r == self@.size_x,
    {
        self.size.0
    }

    pub fn size_y(&self) -> (r: i64)
        ensures
            r == self@.size_y,
    {
        self.size.1
    }

    /// Whether atoms `a` and `b` are bonded.
    pub fn is_bonded(&self, a: u32, b: u32) -> (r: bool)
        requires
            self.wf(),
        ensures
            r == bonded(self@.bonds, a, b),
    {
        let r = bond_keys_contains(&self.ledger, (a, b)) || bond_keys_contains(&self.ledger, (b, a));
        proof {
            if bonded(self.bonds@, a, b) {
                let i = choose|i: int| 0 <= i < self.bonds@.len() && ((#[trigger] self.bonds@[i].a == a && self.bonds@[i].b == b) || (self.bonds@[i].a == b && self.bonds@[i].b == a));
                if self.bonds@[i].a == a && self.bonds@[i].b == b {
                    assert(bond_pairs(self.bonds@).contains((a, b)));
                } else {
                    assert(bond_pairs(self.bonds@).contains((b, a)));
                }
            }
            if bond_keys(self.ledger).contains((a, b)) {
                let i = choose|i: int| 0 <= i < self.bonds@.len() && #[trigger] self.bonds@[i].a == a && self.bonds@[i].b == b;
            }
            if bond_keys(self.ledger).contains((b, a)) {
                let i = choose|i: int| 0 <= i < self.bonds@.len() && #[trigger] self.bonds@[i].a == b && self.bonds@[i].b == a;
            }
        }
        r
    }

    /// The bonds, oldest first.
    pub fn bonds(&self) -> (r: &Vec<Bond>)
        ensures
            r@ == self@.bonds,
    {
        &self.bonds
    }

    /// Adds an atom of `species` and `state` with its centre at `(x, y)`.
    /// Fails, leaving the world as it was, if the diameter is not positive or
    /// wider than the world's atoms, if the centre lies outside the world,
    /// or if an atom with id `atomid` exists, in that order.
    pub fn add_atom_at(&mut self, x: i64, y: i64, species: u8, state: u8, dia: i64, atomid: u32) -> (r: Result<(), WorldError>)
        requires
            old(self).wf(),
        ensures
            final(self).wf(),
            (r == Err::<(), WorldError>(WorldError::BadDiameter)) <==> (dia <= 0 || dia > old(self)@.diameter),
            (r == Err::<(), WorldError>(WorldError::OutOfBounds)) <==> (0 < dia <= old(self)@.diameter
                && !(0 <= x < old(self)@.size_x && 0 <= y < old(self)@.size_y)),
            (r == Err::<(), WorldError>(WorldError::DuplicateId)) <==> (0 < dia <= old(self)@.diameter
                && 0 <= x < old(self)@.size_x && 0 <= y < old(self)@.size_y && old(self)@.atoms.contains_key(atomid)),
            r is Err ==> final(self)@ == old(self)@,
            r is Ok ==> {
                &&& final(self)@.atoms == old(self)@.atoms.insert(atomid, Atom { id: atomid, species, state, x, y, diameter: dia })
                &&& forall|k: u32| #[trigger] final(self)@.ids.contains(k) <==> (old(self)@.ids.contains(k) || k == atomid)
                &&& final(self)@ == (WorldView { atoms: final(self)@.atoms, ids: final(self)@.ids, ..old(self)@ })
            },
    {
        if dia <= 0 || dia > self.diameter {
            return Err(WorldError::BadDiameter);
        }
        if !(0 <= x && x < self.size.0 && 0 <= y && y < self.size.1) {
            return Err(WorldError::OutOfBounds);
        }
        let ghost old_ids = self.ids@;
        if !insert_id(&mut self.ids, atomid) {
            return Err(WorldError::DuplicateId);
        }
        let a = Atom::new(species, state, x, y, dia, atomid);
        self.atom_grid.push(a);
        proof {
            assert forall|i: int| 0 <= i < self.bonds@.len() implies {
                &&& (#[trigger] self.bonds@[i]).a != self.bonds@[i].b
                &&& self.atom_grid@.objects.contains_key(self.bonds@[i].a)
                &&& self.atom_grid@.objects.contains_key(self.bonds@[i].b)
            } by {
                assert(old(self).atom_grid@.objects.contains_key(self.bonds@[i].a));
                assert(old(self).atom_grid@.objects.contains_key(self.bonds@[i].b));
            }
        }
        Ok(())
    }

    /// Every atom, in ascending id order, takes the diffusive step of its
    /// draws.
    fn diffuse(&mut self, draws: &Vec<(u32, u32)>)
        requires
            old(self).wf(),
            draws@.len() == old(self)@.ids.len(),
        ensures
            final(self).wf(),
            final(self)@ == (WorldView { atoms: diffused(old(self)@, old(self)@.ids, draws@), ..old(self)@ }),
    {
        let ghost v0 = self@;
        let mut i: usize = 0;
        while i < self.ids.len()
            invariant
                self.wf(),
                draws@.len() == self.ids@.len(),
                i <= self.ids@.len(),
                self@ == (WorldView { atoms: diffused(v0, v0.ids.take(i as int), draws@.take(i as int)), ..v0 }),
                self@.atoms.dom() == v0.atoms.dom(),
            decreases self.ids@.len() - i,
        {
            let k = self.ids[i];
            assert(self.ids@.contains(k));
            let d = draws[i];
            let dx = displacement_of(self.temperature, d.0);
            let dy = displacement_of(self.temperature, d.1);
            let ghost before = self@.atoms;
            self.atom_grid.move_obj(k, dx, dy);
            proof {
                assert(v0.ids.take(i + 1).drop_last() == v0.ids.take(i as int));
                assert(draws@.take(i + 1).drop_last() == draws@.take(i as int));
                assert(v0.ids.take(i + 1).last() == k);
                assert(draws@.take(i + 1).last() == d);
                assert(self@.atoms.dom() =~= v0.atoms.dom());
                assert forall|j: int| 0 <= j < self.bonds@.len() implies {
                    &&& (#[trigger] self.bonds@[j]).a != self.bonds@[j].b
                    &&& self.atom_grid@.objects.contains_key(self.bonds@[j].a)
                    &&& self.atom_grid@.objects.contains_key(self.bonds@[j].b)
                } by {
                    assert(before.contains_key(self.bonds@[j].a));
                    assert(before.contains_key(self.bonds@[j].b));
                }
            }
            i = i + 1;
        }
        proof {
            assert(v0.ids.take(v0.ids.len() as int) == v0.ids);
            assert(draws@.take(draws@.len() as int) == draws@);
        }
    }

    /// Runs the resolution passes; returns every pair found touching in any
    /// of them, ascending.
    fn resolve(&mut self) -> (seen: Vec<(u32, u32)>)
        requires
            old(self).wf(),
        ensures
            final(self).wf(),
            final(self)@ == (WorldView {
                atoms: after_passes(grid_view(old(self)@.atoms, old(self)@), old(self)@.passes).objects,
                ..old(self)@
            }),
            seen@ == in_order(observed(grid_view(old(self)@.atoms, old(self)@), old(self)@.passes)),
            final(self)@.atoms.dom() == old(self)@.atoms.dom(),
            forall|i: int| 0 <= i < seen@.len() ==> {
                &&& (#[trigger] seen@[i]).0 < seen@[i].1
                &&& old(self)@.atoms.contains_key(seen@[i].0)
                &&& old(self)@.atoms.contains_key(seen@[i].1)
            },
    {
        let ghost v0 = self@;
        let ghost g0 = grid_view(v0.atoms, v0);
        let mut seen: Vec<(u32, u32)> = Vec::new();
        let mut n: u32 = 0;
        while n < self.passes
            invariant
                self.wf(),
                n <= v0.passes,
                self.passes == v0.passes,
                self.atom_grid@ == after_passes(g0, n as nat),
                self@ == (WorldView { atoms: after_passes(g0, n as nat).objects, ..v0 }),
                self@.atoms.dom() == v0.atoms.dom(),
                ascending(seen@),
                forall|q: (u32, u32)| #[trigger] seen@.contains(q) <==> observed(g0, n as nat).contains(q),
                forall|i: int| 0 <= i < seen@.len() ==> {
                    &&& (#[trigger] seen@[i]).0 < seen@[i].1
                    &&& v0.atoms.contains_key(seen@[i].0)
                    &&& v0.atoms.contains_key(seen@[i].1)
                },
            decreases v0.passes - n,
        {
            let ghost before = self@.atoms;
            let pairs = self.atom_grid.detect_and_resolve_collisions();
            proof {
                assert(self@.atoms.dom() =~= v0.atoms.dom());
                assert forall|j: int| 0 <= j < self.bonds@.len() implies {
                    &&& (#[trigger] self.bonds@[j]).a != self.bonds@[j].b
                    &&& self.atom_grid@.objects.contains_key(self.bonds@[j].a)
                    &&& self.atom_grid@.objects.contains_key(self.bonds@[j].b)
                } by {
                    assert(before.contains_key(self.bonds@[j].a));
                    assert(before.contains_key(self.bonds@[j].b));
                }

            }
            let mut j: usize = 0;
            while j < pairs.len()
                invariant
                    j <= pairs@.len(),
                    pairs@ == collisions(before),
                    forall|q: (u32, u32)| #[trigger] pairs@.contains(q) ==> is_collision(before, q),
                    before.dom() == v0.atoms.dom(),
                    ascending(seen@),
                    forall|q: (u32, u32)| #[trigger] seen@.contains(q) <==> (observed(g0, n as nat).contains(q) || pairs@.take(j as int).contains(q)),
                    forall|i: int| 0 <= i < seen@.len() ==> {
                        &&& (#[trigger] seen@[i]).0 < seen@[i].1
                        &&& v0.atoms.contains_key(seen@[i].0)
                        &&& v0.atoms.contains_key(seen@[i].1)
                    },
                decreases pairs@.len() - j,
            {
                let p = pairs[j];
                assert(pairs@.contains(p));
                let ghost old_seen = seen@;
                insert_pair(&mut seen, p);
                proof {
                    assert forall|q: (u32, u32)| #[trigger] seen@.contains(q) <==> (observed(g0, n as nat).contains(q) || pairs@.take(j + 1).contains(q)) by {
                        if pairs@.take(j + 1).contains(q) {
                            let a = choose|a: int| 0 <= a < j + 1 && #[trigger] pairs@.take(j + 1)[a] == q;
                            if a < j {
                                assert(pairs@.take(j as int)[a] == q);
                            }
                        }
                        if pairs@.take(j as int).contains(q) {
                            let a = choose|a: int| 0 <= a < j && #[trigger] pairs@.take(j as int)[a] == q;
                            assert(pairs@.take(j + 1)[a] == q);
                        }
                        if q == p {
                            assert(pairs@.take(j + 1)[j as int] == q);
                        }
                    }
                    assert forall|i: int| 0 <= i < seen@.len() implies {
                        &&& (#[trigger] seen@[i]).0 < seen@[i].1
                        &&& v0.atoms.contains_key(seen@[i].0)
                        &&& v0.atoms.contains_key(seen@[i].1)
                    } by {
                        let q = seen@[i];
                        assert(seen@.contains(q));
                        if q != p {
                            assert(old_seen.contains(q));
                            let a = choose|a: int| 0 <= a < old_seen.len() && old_seen[a] == q;
                        }
                    }
                }
                j = j + 1;
            }
            proof {
                assert(pairs@.take(pairs@.len() as int) == pairs@);
                assert forall|q: (u32, u32)| #[trigger] seen@.contains(q) <==> observed(g0, (n + 1) as nat).contains(q) by {
                    assert(pairs@.to_set().contains(q) <==> pairs@.contains(q));
                }
            }
            n = n + 1;
        }
        proof {
            let s = in_order(observed(g0, v0.passes));
            assert(ascending(seen@) && forall|p: (u32, u32)| #[trigger] seen@.contains(p) <==> observed(g0, v0.passes).contains(p));
            lemma_ascending_unique(s, seen@);
        }
        seen
    }

    /// The rest length of a new bond.
    fn bond_length(&self) -> (r: i64)
        requires
            self.wf(),
        ensures
            r == rest_length(self@.diameter),
    {
        self.diameter * BOND_LENGTH_PERCENT / 100
    }

    /// The reaction trial over `pairs`, in order.
    fn react(&mut self, pairs: &Vec<(u32, u32)>)
        requires
            old(self).wf(),
            forall|i: int| 0 <= i < pairs@.len() ==> {
                &&& (#[trigger] pairs@[i]).0 < pairs@[i].1
                &&& old(self)@.atoms.contains_key(pairs@[i].0)
                &&& old(self)@.atoms.contains_key(pairs@[i].1)
            },
        ensures
            final(self).wf(),
            final(self)@ == (WorldView {
                atoms: reacted(old(self)@.atoms, old(self)@.bonds, old(self)@.rules, rest_length(old(self)@.diameter) as i64, pairs@).0,
                bonds: reacted(old(self)@.atoms, old(self)@.bonds, old(self)@.rules, rest_length(old(self)@.diameter) as i64, pairs@).1,
                ..old(self)@
            }),
    {
        let ghost v0 = self@;
        let rest = self.bond_length();
        let mut i: usize = 0;
        while i < pairs.len()
            invariant
                self.wf(),
                rest == rest_length(v0.diameter),
                i <= pairs@.len(),
                forall|j: int| 0 <= j < pairs@.len() ==> {
                    &&& (#[trigger] pairs@[j]).0 < pairs@[j].1
                    &&& v0.atoms.contains_key(pairs@[j].0)
                    &&& v0.atoms.contains_key(pairs@[j].1)
                },
                self@.atoms.dom() == v0.atoms.dom(),
                self@ == (WorldView {
                    atoms: reacted(v0.atoms, v0.bonds, v0.rules, rest, pairs@.take(i as int)).0,
                    bonds: reacted(v0.atoms, v0.bonds, v0.rules, rest, pairs@.take(i as int)).1,
                    ..v0
                }),
            decreases pairs@.len() - i,
        {
            let p = pairs[i];
            let (a, b) = p;
            assert(pairs@.take(i + 1).drop_last() == pairs@.take(i as int));
            assert(pairs@.take(i + 1).last() == p);
            if !self.is_bonded(a, b) {
                let ra = *self.atom_grid.get(a);
                let rb = *self.atom_grid.get(b);
                let res = self.chemistry.get_products(Reactant(ra.species, ra.state), Reactant(rb.species, rb.state));
                let ghost before = self@;
                match res {
                    Some(ReactionResult::Combine(s, t)) => {
                        set_state(&mut self.atom_grid, a, s);
                        set_state(&mut self.atom_grid, b, t);
                        self.bonds.push(Bond { a, b, rest_length: rest });
                        bond_keys_insert(&mut self.ledger, (a, b));
                        proof {
                            assert(self@.atoms.dom() =~= v0.atoms.dom());
                            let nb = self.bonds@;
                            assert forall|j: int| 0 <= j < nb.len() implies {
                                &&& (#[trigger] nb[j]).a != nb[j].b
                                &&& self.atom_grid@.objects.contains_key(nb[j].a)
                                &&& self.atom_grid@.objects.contains_key(nb[j].b)
                            } by {
                                if j < before.bonds.len() {
                                    assert(nb[j] == before.bonds[j]);
                                }
                            }
                            assert forall|j: int, k: int| 0 <= j < k < nb.len() implies {
                                &&& !(#[trigger] nb[j].a == #[trigger] nb[k].a && nb[j].b == nb[k].b)
                                &&& !(nb[j].a == nb[k].b && nb[j].b == nb[k].a)
                            } by {
                                assert(nb[j] == before.bonds[j]);
                                if k == nb.len() - 1 {
                                    if (nb[j].a == a && nb[j].b == b) || (nb[j].a == b && nb[j].b == a) {
                                        assert(bonded(before.bonds, a, b));
                                    }
                                } else {
                                    assert(nb[k] == before.bonds[k]);
                                }
                            }
                            assert forall|q: (u32, u32)| #[trigger] bond_keys(self.ledger).contains(q) <==> bond_pairs(nb).contains(q) by {
                                if bond_pairs(nb).contains(q) {
                                    let j = choose|j: int| 0 <= j < nb.len() && #[trigger] nb[j].a == q.0 && nb[j].b == q.1;
                                    if j < before.bonds.len() {
                                        assert(nb[j] == before.bonds[j]);
                                        assert(bond_pairs(before.bonds).contains(q));
                                    }
                                }
                                if bond_pairs(before.bonds).contains(q) {
                                    let j = choose|j: int| 0 <= j < before.bonds.len() && #[trigger] before.bonds[j].a == q.0 && before.bonds[j].b == q.1;
                                    assert(nb[j] == before.bonds[j]);
                                }
                                if q == (a, b) {
                                    assert(nb[nb.len() - 1].a == q.0);
                                }
                            }
                            assert(bond_keys(self.ledger) =~= bond_pairs(nb));
                        }
                    },
                    Some(ReactionResult::Excite(s, t)) => {
                        set_state(&mut self.atom_grid, a, s);
                        set_state(&mut self.atom_grid, b, t);
                        proof {
                            assert(self@.atoms.dom() =~= v0.atoms.dom());
                        }
                    },
                    _ => {},
                }
            }
            i = i + 1;
        }
        assert(pairs@.take(pairs@.len() as int) == pairs@);
    }

    /// The decomposition trial over the bonds, in order.
    fn decompose(&mut self)
        requires
            old(self).wf(),
        ensures
            final(self).wf(),
            final(self)@ == (WorldView {
                atoms: decomposed(old(self)@.atoms, old(self)@.rules, old(self)@.bonds).0,
                bonds: decomposed(old(self)@.atoms, old(self)@.rules, old(self)@.bonds).1,
                ..old(self)@
            }),
    {
        let ghost v0 = self@;
        let mut kept: Vec<Bond> = Vec::new();
        let ghost mut idx: Seq<int> = Seq::empty();
        let mut i: usize = 0;
        proof {
            assert(v0.bonds.skip(0) == v0.bonds);
            assert(bond_pairs(kept@) =~= Set::empty());
            assert(bond_keys(self.ledger) =~= bond_pairs(kept@) + bond_pairs(v0.bonds.skip(0)));
        }
        while i < self.bonds.len()
            invariant
                self.atom_grid.wf(),
                self.atom_grid@.size_x == v0.size_x,
                self.atom_grid@.size_y == v0.size_y,
                self.atom_grid@.spacing_x == v0.diameter,
                self.atom_grid@.spacing_y == v0.diameter,
                self.atom_grid@.objects.dom() == v0.atoms.dom(),
                self.bonds@ == v0.bonds,
                self.chemistry@ == v0.rules,
                self.ids@ == v0.ids,
                self.size == old(self).size,
                self.temperature == old(self).temperature,
                self.diameter == old(self).diameter,
                self.passes == old(self).passes,
                old(self).wf(),
                v0 == old(self)@,
                bonds_ok(v0.bonds, v0.atoms),
                i <= v0.bonds.len(),
                self.atom_grid@.objects == decomposed(v0.atoms, v0.rules, v0.bonds.take(i as int)).0,
                kept@ == decomposed(v0.atoms, v0.rules, v0.bonds.take(i as int)).1,
                idx.len() == kept@.len(),
                forall|j: int| 0 <= j < idx.len() ==> 0 <= #[trigger] idx[j] < i && kept@[j] == v0.bonds[idx[j]],
                forall|j: int, k: int| 0 <= j < k < idx.len() ==> #[trigger] idx[j] < #[trigger] idx[k],
                bond_keys(self.ledger) == bond_pairs(kept@) + bond_pairs(v0.bonds.skip(i as int)),
            decreases v0.bonds.len() - i,
        {
            let bd = self.bonds[i];
            assert(v0.bonds.take(i + 1).drop_last() == v0.bonds.take(i as int));
            assert(v0.bonds.take(i + 1).last() == bd);
            assert(v0.atoms.contains_key(bd.a) && v0.atoms.contains_key(bd.b));
            let ra = *self.atom_grid.get(bd.a);
            let rb = *self.atom_grid.get(bd.b);
            let res = self.chemistry.get_products(Reactant(ra.species, ra.state), Reactant(rb.species, rb.state));
            let ghost ledger0 = bond_keys(self.ledger);
            match res {
                Some(ReactionResult::Decompose(s, t)) => {
                    set_state(&mut self.atom_grid, bd.a, s);
                    set_state(&mut self.atom_grid, bd.b, t);
                    bond_keys_remove(&mut self.ledger, (bd.a, bd.b));
                    bond_keys_remove(&mut self.ledger, (bd.b, bd.a));
                    proof {
                        assert(self.atom_grid@.objects.dom() =~= v0.atoms.dom());
                        assert forall|q: (u32, u32)| #[trigger] bond_keys(self.ledger).contains(q) <==> (bond_pairs(kept@) + bond_pairs(v0.bonds.skip(i + 1))).contains(q) by {
                            if bond_pairs(v0.bonds.skip(i as int)).contains(q) {
                                let j = choose|j: int| 0 <= j < v0.bonds.skip(i as int).len() && #[trigger] v0.bonds.skip(i as int)[j].a == q.0 && v0.bonds.skip(i as int)[j].b == q.1;
                                if j > 0 {
                                    assert(v0.bonds.skip(i + 1)[j - 1] == v0.bonds.skip(i as int)[j]);
                                }
                            }
                            if bond_pairs(v0.bonds.skip(i + 1)).contains(q) {
                                let j = choose|j: int| 0 <= j < v0.bonds.skip(i + 1).len() && #[trigger] v0.bonds.skip(i + 1)[j].a == q.0 && v0.bonds.skip(i + 1)[j].b == q.1;
                                assert(v0.bonds.skip(i as int)[j + 1] == v0.bonds.skip(i + 1)[j]);
                                assert(v0.bonds[i + 1 + j] == v0.bonds.skip(i + 1)[j]);
                                if q == (bd.a, bd.b) || q == (bd.b, bd.a) {
                                    assert(v0.bonds[i as int] == bd);
                                }
                            }
                            if bond_pairs(kept@).contains(q) {
                                let j = choose|j: int| 0 <= j < kept@.len() && #[trigger] kept@[j].a == q.0 && kept@[j].b == q.1;
                                assert(kept@[j] == v0.bonds[idx[j]]);
                                if q == (bd.a, bd.b) || q == (bd.b, bd.a) {
                                    assert(v0.bonds[i as int] == bd);
                                    assert(idx[j] < i);
                                }
                            }
                            if q == (bd.a, bd.b) || q == (bd.b, bd.a) {
                                assert(v0.bonds.skip(i as int)[0] == bd);
                            }
                        }
                        assert(bond_keys(self.ledger) =~= bond_pairs(kept@) + bond_pairs(v0.bonds.skip(i + 1)));
                    }
                },
                _ => {
                    let ghost old_kept = kept@;
                    kept.push(bd);
                    proof {
                        idx = idx.push(i as int);
                        assert forall|q: (u32, u32)| #[trigger] bond_keys(self.ledger).contains(q) <==> (bond_pairs(kept@) + bond_pairs(v0.bonds.skip(i + 1))).contains(q) by {
                            if bond_pairs(v0.bonds.skip(i as int)).contains(q) {
                                let j = choose|j: int| 0 <= j < v0.bonds.skip(i as int).len() && #[trigger] v0.bonds.skip(i as int)[j].a == q.0 && v0.bonds.skip(i as int)[j].b == q.1;
                                if j > 0 {
                                    assert(v0.bonds.skip(i + 1)[j - 1] == v0.bonds.skip(i as int)[j]);
                                } else {
                                    assert(kept@[kept@.len() - 1] == bd);
                                }
                            }
                            if bond_pairs(v0.bonds.skip(i + 1)).contains(q) {
                                let j = choose|j: int| 0 <= j < v0.bonds.skip(i + 1).len() && #[trigger] v0.bonds.skip(i + 1)[j].a == q.0 && v0.bonds.skip(i + 1)[j].b == q.1;
                                assert(v0.bonds.skip(i as int)[j + 1] == v0.bonds.skip(i + 1)[j]);
                            }
                            if bond_pairs(old_kept).contains(q) {
                                let j = choose|j: int| 0 <= j < old_kept.len() && #[trigger] old_kept[j].a == q.0 && old_kept[j].b == q.1;
                                assert(kept@[j] == old_kept[j]);
                            }
                            if bond_pairs(kept@).contains(q) {
                                let j = choose|j: int| 0 <= j < kept@.len() && #[trigger] kept@[j].a == q.0 && kept@[j].b == q.1;
                                if j < old_kept.len() {
                                    assert(old_kept[j] == kept@[j]);
                                } else {
                                    assert(v0.bonds.skip(i as int)[0] == bd);
                                }
                            }
                        }
                        assert(bond_keys(self.ledger) =~= bond_pairs(kept@) + bond_pairs(v0.bonds.skip(i + 1)));
                    }
                },
            }
            i = i + 1;
        }
        assert(v0.bonds.take(v0.bonds.len() as int) == v0.bonds);
        proof {
            assert(bond_pairs(v0.bonds.skip(v0.bonds.len() as int)) =~= Set::empty()) by {
                assert forall|q: (u32, u32)| !bond_pairs(v0.bonds.skip(v0.bonds.len() as int)).contains(q) by {
                    if bond_pairs(v0.bonds.skip(v0.bonds.len() as int)).contains(q) {
                        let j = choose|j: int| 0 <= j < v0.bonds.skip(v0.bonds.len() as int).len() && #[trigger] v0.bonds.skip(v0.bonds.len() as int)[j].a == q.0 && v0.bonds.skip(v0.bonds.len() as int)[j].b == q.1;
                    }
                }
            }
            assert(bond_keys(self.ledger) =~= bond_pairs(kept@));
            let k = kept@;
            assert forall|j: int| 0 <= j < k.len() implies {
                &&& (#[trigger] k[j]).a != k[j].b
                &&& self.atom_grid@.objects.contains_key(k[j].a)
                &&& self.atom_grid@.objects.contains_key(k[j].b)
            } by {
                assert(k[j] == v0.bonds[idx[j]]);
            }
            assert forall|j: int, l: int| 0 <= j < l < k.len() implies {
                &&& !(#[trigger] k[j].a == #[trigger] k[l].a && k[j].b == k[l].b)
                &&& !(k[j].a == k[l].b && k[j].b == k[l].a)
            } by {
                assert(k[j] == v0.bonds[idx[j]]);
                assert(k[l] == v0.bonds[idx[l]]);
                assert(idx[j] < idx[l]);
            }
            assert forall|q: u32| #[trigger] self.ids@.contains(q) <==> self.atom_grid@.objects.contains_key(q) by {
                assert(v0.atoms.dom().contains(q) == self.atom_grid@.objects.dom().contains(q));
            }
        }
        self.bonds = kept;
    }

    /// Advances the world by one tick, with `draws` as the diffusive steps'
    /// random numbers: one pair for each atom, in ascending id order.
    pub fn advance(&mut self, draws: &Vec<(u32, u32)>)
        requires
            old(self).wf(),
            draws@.len() == old(self)@.ids.len(),
        ensures
            final(self).wf(),
            final(self)@ == stepped(old(self)@, draws@),
    {
        self.diffuse(draws);
        let seen = self.resolve();
        self.react(&seen);
        self.decompose();
    }

    /// Advances the world by one tick, drawing the diffusive steps from the
    /// world's random stream.
    pub fn step(&mut self)
        requires
            old(self).wf(),
        ensures
            final(self).wf(),
            exists|d: Seq<(u32, u32)>| d.len() == old(self)@.ids.len() && final(self)@ == stepped(old(self)@, d),
    {
        let mut draws: Vec<(u32, u32)> = Vec::new();
        let mut i: usize = 0;
        while i < self.ids.len()
            invariant
                self.wf(),
                self@ == old(self)@,
                i <= self.ids@.len(),
                draws@.len() == i,
            decreases self.ids@.len() - i,
        {
            let dx = next_draw(&mut self.rng);
            let dy = next_draw(&mut self.rng);
            draws.push((dx, dy));
            i = i + 1;
        }
        self.advance(&draws);
    }

    /// Adds `n_atoms` atoms of diameter `dia` at random positions, with
    /// random species and states, numbered on from the highest id.
    pub fn init_random(&mut self, n_atoms: u32, dia: i64)
        requires
            old(self).wf(),
            0 < dia <= old(self)@.diameter,
            next_id(old(self)@) + n_atoms <= 0x1_0000_0000,
        ensures
            final(self).wf(),
            forall|k: u32| #[trigger] final(self)@.atoms.contains_key(k) <==> (old(self)@.atoms.contains_key(k)
                || (next_id(old(self)@) <= k < next_id(old(self)@) + n_atoms)),
            forall|k: u32| #[trigger] old(self)@.atoms.contains_key(k) ==> final(self)@.atoms[k] == old(self)@.atoms[k],
            forall|k: u32| next_id(old(self)@) <= k < next_id(old(self)@) + n_atoms ==> {
                &&& (#[trigger] final(self)@.atoms[k]).id == k
                &&& final(self)@.atoms[k].diameter == dia
            },
            final(self)@.bonds == old(self)@.bonds,
            final(self)@.rules == old(self)@.rules,
    {
        let ghost v0 = self@;
        if n_atoms == 0 {
            return;
        }
        let first: u32 = if self.ids.len() == 0 { 0 } else { self.ids[self.ids.len() - 1] + 1 };
        proof {
            assert forall|k: u32| #[trigger] v0.atoms.contains_key(k) implies k < first by {
                assert(self.ids@.contains(k));
                let j = choose|j: int| 0 <= j < self.ids@.len() && self.ids@[j] == k;
                if j < self.ids@.len() - 1 {
                    assert(self.ids@[j] < self.ids@[self.ids@.len() - 1]);
                }
            }
        }
        let mut c: u32 = 0;
        while c < n_atoms
            invariant
                self.wf(),
                first == next_id(v0),
                first + n_atoms <= 0x1_0000_0000,
                c <= n_atoms,
                self@.diameter == v0.diameter,
                self@.size_x == v0.size_x,
                self@.size_y == v0.size_y,
                0 < dia <= v0.diameter,
                self@.bonds == v0.bonds,
                self@.rules == v0.rules,
                forall|k: u32| #[trigger] self@.atoms.contains_key(k) <==> (v0.atoms.contains_key(k) || (first <= k < first + c)),
                forall|k: u32| #[trigger] v0.atoms.contains_key(k) ==> self@.atoms[k] == v0.atoms[k],
                forall|k: u32| first <= k < first + c ==> {
                    &&& (#[trigger] self@.atoms[k]).id == k
                    &&& self@.atoms[k].diameter == dia
                },
                forall|k: u32| #[trigger] v0.atoms.contains_key(k) ==> k < first,
            decreases n_atoms - c,
        {
            let rx = next_draw(&mut self.rng);
            let ry = next_draw(&mut self.rng);
            let rs = next_draw(&mut self.rng);
            let rt = next_draw(&mut self.rng);
            let x = scaled_of(rx, self.size.0);
            let y = scaled_of(ry, self.size.1);
            let k = first + c;
            proof {
                assert(!self@.atoms.contains_key(k));
                assert(0 <= x < self@.size_x && 0 <= y < self@.size_y);
                assert(0 < dia <= self@.diameter);
            }
            let r = self.add_atom_at(x, y, rs as u8, rt as u8, dia, k);
            match r {
                Ok(()) => {},
                Err(e) => {
                    proof {
                        match e {
                            WorldError::BadDiameter => {},
                            WorldError::OutOfBounds => {},
                            WorldError::DuplicateId => {},
                        }
                        assert(false);
                    }
                },
            }
            c = c + 1;
        }
    }

    /// Copies of the atoms, in ascending id order.
    pub fn atom_iter(&self) -> (r: Vec<Atom>)
        requires
            self.wf(),
        ensures
            r@.len() == self@.ids.len(),
            forall|i: int| 0 <= i < r@.len() ==> #[trigger] r@[i] == self@.atoms[self@.ids[i]],
    {
        let mut r: Vec<Atom> = Vec::new();
        let mut i: usize = 0;
        while i < self.ids.len()
            invariant
                self.wf(),
                i <= self.ids@.len(),
                r@.len() == i,
                forall|j: int| 0 <= j < i ==> #[trigger] r@[j] == self@.atoms[self@.ids[j]],
            decreases self.ids@.len() - i,
        {
            let k = self.ids[i];
            assert(self.ids@.contains(k));
            let a = *self.atom_grid.get(k);
            r.push(a);
            i = i + 1;
        }
        r
    }
}

/// Every atom of a world lies inside it: `0 <= x < size_x` and
/// `0 <= y < size_y`, whatever moves, passes and reactions came before.
pub proof fn lemma_atoms_in_world(w: &World, k: u32)
    requires
        w.wf(),
        w@.atoms.contains_key(k),
    ensures
        0 <= w@.atoms[k].x < w@.size_x,
        0 <= w@.atoms[k].y < w@.size_y,
        w@.atoms[k].id == k,
{
    lemma_objects_in_world(&w.atom_grid, k);
}

/// A tick is a function of the world and the draws: two worlds that hold
/// the same and get the same draws (as two generators with the same seed
/// give) hold the same after the tick, atoms, states and bonds alike.
pub proof fn lemma_tick_deterministic(v1: WorldView, v2: WorldView, d1: Seq<(u32, u32)>, d2: Seq<(u32, u32)>)
    requires
        v1 == v2,
        d1 == d2,
    ensures
        stepped(v1, d1) == stepped(v2, d2),
{
}

proof fn lemma_alone_no_collisions(g: GridView<Atom>, k: u32)
    requires
        g.objects.dom() == set![k],
    ensures
        collisions(g.objects) == Seq::<(u32, u32)>::empty(),
{
    let e = Seq::<(u32, u32)>::empty();
    assert forall|p: (u32, u32)| #[trigger] e.contains(p) <==> is_collision(g.objects, p) by {
        if is_collision(g.objects, p) {
            assert(g.objects.dom().contains(p.0));
            assert(g.objects.dom().contains(p.1));
        }
    }
    assert(ascending(e) && forall|p: (u32, u32)| #[trigger] e.contains(p) <==> is_collision(g.objects, p));
    lemma_ascending_unique(collisions(g.objects), e);
}

proof fn lemma_alone_at_rest(g: GridView<Atom>, k: u32, n: nat)
    requires
        g.objects.dom() == set![k],
        0 <= g.objects[k].x < g.size_x,
        0 <= g.objects[k].y < g.size_y,
    ensures
        after_passes(g, n) == g,
        observed(g, n) == Set::<(u32, u32)>::empty(),
    decreases n,
{
    if n > 0 {
        lemma_alone_at_rest(g, k, (n - 1) as nat);
        lemma_alone_no_collisions(g, k);
        let a = g.objects[k];
        assert(corrected(a, correction(g.objects, collisions(g.objects), k), g.size_x, g.size_y) == a);
        assert(resolved(g) =~= g.objects);
        assert(observed(g, n) =~= Set::<(u32, u32)>::empty());
    }
}

/// A lone atom in a world at temperature zero never moves and never reacts:
/// a tick leaves the world as it was, whatever the draws.
pub proof fn lemma_lone_atom_at_rest(v: WorldView, d: Seq<(u32, u32)>, k: u32)
    requires
        v.atoms.dom() == set![k],
        v.ids == seq![k],
        d.len() == 1,
        v.temperature == 0,
        v.bonds.len() == 0,
        0 <= v.atoms[k].x < v.size_x,
        0 <= v.atoms[k].y < v.size_y,
    ensures
        stepped(v, d) == v,
{
    let a = v.atoms[k];
    let r0 = d[0].0 as int;
    let r1 = d[0].1 as int;
    assert(r0 * (2 * 0) == 0 && r1 * (2 * 0) == 0) by (nonlinear_arith);
    assert(displacement(0, d[0].0) == 0);
    assert(displacement(0, d[0].1) == 0);
    assert(shifted(a, d[0], v) == a);
    assert(v.ids.drop_last().len() == 0);
    assert(v.ids.last() == k);
    assert(d.last() == d[0]);
    assert(diffused(v, v.ids.drop_last(), d.drop_last()) == v.atoms);
    assert(diffused(v, v.ids, d) =~= v.atoms);
    let g = grid_view(v.atoms, v);
    lemma_alone_at_rest(g, k, v.passes);
    let e = Seq::<(u32, u32)>::empty();
    assert(ascending(e) && forall|p: (u32, u32)| #[trigger] e.contains(p) <==> Set::<(u32, u32)>::empty().contains(p));
    lemma_ascending_unique(in_order(Set::<(u32, u32)>::empty()), e);
    assert(decomposed(v.atoms, v.rules, v.bonds).1 =~= v.bonds);
}

/// The reaction trial only adds bonds: every bond there before is still
/// there after, in its place.
pub proof fn lemma_reaction_keeps_bonds(atoms: Map<u32, Atom>, bonds: Seq<Bond>, rules: Map<RuleKey, ReactionResult>, rest: i64, pairs: Seq<(u32, u32)>)
    ensures
        reacted(atoms, bonds, rules, rest, pairs).1.len() >= bonds.len(),
        reacted(atoms, bonds, rules, rest, pairs).1.take(bonds.len() as int) == bonds,
    decreases pairs.len(),
{
    if pairs.len() > 0 {
        lemma_reaction_keeps_bonds(atoms, bonds, rules, rest, pairs.drop_last());
        let r = reacted(atoms, bonds, rules, rest, pairs.drop_last());
        let s = reacted(atoms, bonds, rules, rest, pairs);
        assert(s.1.take(bonds.len() as int) =~= r.1.take(bonds.len() as int));
    }
}

proof fn lemma_kept_from(atoms: Map<u32, Atom>, rules: Map<RuleKey, ReactionResult>, bonds: Seq<Bond>)
    ensures
        forall|x: Bond| #[trigger] decomposed(atoms, rules, bonds).1.contains(x) ==> bonds.contains(x),
    decreases bonds.len(),
{
    if bonds.len() > 0 {
        lemma_kept_from(atoms, rules, bonds.drop_last());
        let r = decomposed(atoms, rules, bonds.drop_last());
        assert forall|x: Bond| #[trigger] decomposed(atoms, rules, bonds).1.contains(x) implies bonds.contains(x) by {
            if r.1.contains(x) {
                let j = choose|j: int| 0 <= j < bonds.drop_last().len() && bonds.drop_last()[j] == x;
                assert(bonds[j] == x);
            } else {
                assert(bonds[bonds.len() - 1] == x);
            }
        }
    }
}

/// The decomposition trial drops a bond exactly when the states of its two
/// atoms, as they stand at its turn, meet a decomposition rule; every other
/// bond stays.
pub proof fn lemma_decomposition_drops(atoms: Map<u32, Atom>, rules: Map<RuleKey, ReactionResult>, bonds: Seq<Bond>, i: int)
    requires
        0 <= i < bonds.len(),
        forall|j: int, l: int| 0 <= j < l < bonds.len() ==> #[trigger] bonds[j] != #[trigger] bonds[l],
    ensures
        decomposed(atoms, rules, bonds).1.contains(bonds[i]) <==> !(lookup(
            rules,
            reactant(decomposed(atoms, rules, bonds.take(i)).0[bonds[i].a]),
            reactant(decomposed(atoms, rules, bonds.take(i)).0[bonds[i].b]),
        ) matches Some(ReactionResult::Decompose(_, _))),
    decreases bonds.len(),
{
    let n = bonds.len() - 1;
    let front = bonds.drop_last();
    let r = decomposed(atoms, rules, front);
    let bd = bonds[n];
    lemma_kept_from(atoms, rules, front);
    if i == n {
        assert(bonds.take(i) == front);
        if r.1.contains(bd) {
            let j = choose|j: int| 0 <= j < front.len() && front[j] == bd;
            assert(bonds[j] == bonds[n]);
        }
        let res = lookup(rules, reactant(r.0[bd.a]), reactant(r.0[bd.b]));
        match res {
            Some(ReactionResult::Decompose(_, _)) => {},
            _ => {
                assert(decomposed(atoms, rules, bonds).1 == r.1.push(bd));
                assert(r.1.push(bd)[r.1.len() as int] == bd);
            },
        }
    } else {
        assert(front.take(i) == bonds.take(i));
        assert(front[i] == bonds[i]);
        lemma_decomposition_drops(atoms, rules, front, i);
        let out = decomposed(atoms, rules, bonds).1;
        assert(out.contains(bonds[i]) <==> r.1.contains(bonds[i])) by {
            if out.contains(bonds[i]) && !r.1.contains(bonds[i]) {
                let j = choose|j: int| 0 <= j < out.len() && out[j] == bonds[i];
                if j < r.1.len() {
                    assert(r.1[j] == bonds[i]);
                } else {
                    assert(bonds[n] == bonds[i]);
                }
            }
            if r.1.contains(bonds[i]) {
                let j = choose|j: int| 0 <= j < r.1.len() && r.1[j] == bonds[i];
                assert(out[j] == bonds[i]);
            }
        }
    }
}

} // verus!

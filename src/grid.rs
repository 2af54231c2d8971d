//! A uniform spatial hash grid on the wrap-around plane.

use vstd::prelude::*;
use ahash::AHashMap;
use crate::atom::Spatial2D;
use crate::geometry::{wrap_add, wrapped, discs_overlap, separation, separation_of, int_sqrt, MAX_EXTENT};
use crate::pairs::{ascending, insert_pair, lemma_ascending_unique};
use vstd::arithmetic::div_mod::lemma_fundamental_div_mod_converse;
use crate::hashed::{id_cells, id_cells_new, id_cells_insert, id_cells_remove, id_cells_get};
use crate::hashed::{shifts, shifts_new, shifts_insert, shifts_get};

verus! {

/// Largest number of cells a grid may have.
pub const MAX_CELLS: usize = 16777216;

/// What a grid holds, and its geometry.
pub struct GridView<T> {
    /// The objects, by id.
    pub objects: Map<u32, T>,
    pub size_x: int,
    pub size_y: int,
    pub spacing_x: int,
    pub spacing_y: int,
}

/// Whether a world of `size` units, cut into cells of `spacing`, gives a grid
/// that fits in memory.
pub open spec fn valid_layout(size_x: int, size_y: int, spacing_x: int, spacing_y: int) -> bool {
    &&& 0 < spacing_x <= size_x <= MAX_EXTENT
    &&& 0 < spacing_y <= size_y <= MAX_EXTENT
    &&& (size_x / spacing_x) * (size_y / spacing_y) <= MAX_CELLS
}

/// Whether an object may stand in a grid of that geometry: its centre lies in
/// the world and it is no wider than a cell.
pub open spec fn placed<T: Spatial2D>(o: T, v: GridView<T>) -> bool {
    &&& 0 <= o.pos_x() < v.size_x
    &&& 0 <= o.pos_y() < v.size_y
    &&& 0 <= o.extent() <= v.spacing_x
    &&& o.extent() <= v.spacing_y
}

/// The column (or row) of the cell that holds coordinate `v`: the last one
/// also takes what is left over when `size` is no multiple of `spacing`.
pub open spec fn cell_coord(v: int, spacing: int, span: int) -> int {
    if v / spacing < span {
        v / spacing
    } else {
        span - 1
    }
}

/// Whether row (or column) `b` is `a` or next to it, on an axis of `span`
/// cells that wraps around.
pub open spec fn near(a: int, b: int, span: int) -> bool {
    0 <= b < span && (b == a || b == (a + 1) % span || b == (a + span - 1) % span)
}

/// Whether the objects `a` and `b` touch or overlap.
pub open spec fn touching<T: Spatial2D>(a: T, b: T) -> bool {
    discs_overlap(b.pos_x() - a.pos_x(), b.pos_y() - a.pos_y(), a.extent() + b.extent())
}

/// Whether the ids `p.0 < p.1` name two objects that touch.
pub open spec fn is_collision<T: Spatial2D>(objs: Map<u32, T>, p: (u32, u32)) -> bool {
    &&& objs.contains_key(p.0)
    &&& objs.contains_key(p.1)
    &&& p.0 < p.1
    &&& touching(objs[p.0], objs[p.1])
}

/// The colliding pairs of `objs`, in ascending order.
pub open spec fn collisions<T: Spatial2D>(objs: Map<u32, T>) -> Seq<(u32, u32)> {
    choose|s: Seq<(u32, u32)>| ascending(s) && forall|p: (u32, u32)| #[trigger] s.contains(p) <==> is_collision(objs, p)
}

/// How far the pair `p` pushes its second object; its first object moves by
/// the opposite.
pub open spec fn push_of<T: Spatial2D>(objs: Map<u32, T>, p: (u32, u32)) -> (int, int) {
    let a = objs[p.0];
    let b = objs[p.1];
    let dx = b.pos_x() - a.pos_x();
    let dy = b.pos_y() - a.pos_y();
    separation(dx, dy, a.extent() + b.extent(), int_sqrt(dx * dx + dy * dy))
}

/// The sum of the pushes that the pairs give the object `k`.
pub open spec fn correction<T: Spatial2D>(objs: Map<u32, T>, pairs: Seq<(u32, u32)>, k: u32) -> (int, int)
    decreases pairs.len(),
{
    if pairs.len() == 0 {
        (0, 0)
    } else {
        let c = correction(objs, pairs.drop_last(), k);
        let p = pairs.last();
        let m = push_of(objs, p);
        if p.0 == k {
            (c.0 - m.0, c.1 - m.1)
        } else if p.1 == k {
            (c.0 + m.0, c.1 + m.1)
        } else {
            c
        }
    }
}

/// `v` limited to less than one period of an axis of length `size`.
pub open spec fn clamp(v: int, size: int) -> int {
    if v > size - 1 {
        size - 1
    } else if v < -(size - 1) {
        -(size - 1)
    } else {
        v
    }
}

/// The object `o` moved by the correction `c`, wrapped into the world.
pub open spec fn corrected<T: Spatial2D>(o: T, c: (int, int), size_x: int, size_y: int) -> T {
    o.moved_to(
        wrapped(o.pos_x(), clamp(c.0, size_x), size_x),
        wrapped(o.pos_y(), clamp(c.1, size_y), size_y),
    )
}

/// The objects after one resolution pass: each moved by the sum of the
/// pushes from every object it touches, all computed from the positions
/// before the pass.
pub open spec fn resolved<T: Spatial2D>(v: GridView<T>) -> Map<u32, T> {
    Map::new(
        |k: u32| v.objects.contains_key(k),
        |k: u32| corrected(v.objects[k], correction(v.objects, collisions(v.objects), k), v.size_x, v.size_y),
    )
}

/// Two coordinates no further apart than a cell fall in the same or in
/// adjacent cells.
proof fn lemma_near_coords(a: int, b: int, spacing: int, span: int)
    requires
        0 < spacing,
        1 <= span,
        0 <= a,
        0 <= b,
        -spacing <= b - a <= spacing,
    ensures
        near(cell_coord(a, spacing, span), cell_coord(b, spacing, span), span),
{
    let qa = a / spacing;
    let qb = b / spacing;
    assert(a == spacing * qa + a % spacing && 0 <= a % spacing < spacing) by (nonlinear_arith)
        requires 0 < spacing, qa == a / spacing;
    assert(b == spacing * qb + b % spacing && 0 <= b % spacing < spacing) by (nonlinear_arith)
        requires 0 < spacing, qb == b / spacing;
    assert(-1 <= qb - qa <= 1) by (nonlinear_arith)
        requires
            a == spacing * qa + a % spacing,
            0 <= a % spacing < spacing,
            b == spacing * qb + b % spacing,
            0 <= b % spacing < spacing,
            -spacing <= b - a <= spacing,
            0 < spacing;
    assert(qa >= 0 && qb >= 0) by (nonlinear_arith)
        requires 0 < spacing, 0 <= a, 0 <= b, qa == a / spacing, qb == b / spacing;
    let ca = cell_coord(a, spacing, span);
    let cb = cell_coord(b, spacing, span);
    assert(-1 <= cb - ca <= 1);
    if cb == ca + 1 {
        lemma_fundamental_div_mod_converse(ca + 1, span, 0, ca + 1);
    } else if cb == ca - 1 {
        lemma_fundamental_div_mod_converse(ca + span - 1, span, 1, ca - 1);
    }
}

/// Two objects that touch are no further apart than a cell on either axis.
proof fn lemma_touching_close<T: Spatial2D>(a: T, b: T, sx: int, sy: int)
    requires
        touching(a, b),
        0 <= a.extent() <= sx,
        0 <= b.extent() <= sx,
        a.extent() <= sy,
        b.extent() <= sy,
    ensures
        -sx <= b.pos_x() - a.pos_x() <= sx,
        -sy <= b.pos_y() - a.pos_y() <= sy,
{
    let dx = b.pos_x() - a.pos_x();
    let dy = b.pos_y() - a.pos_y();
    let d = a.extent() + b.extent();
    assert(4 * (dx * dx + dy * dy) <= d * d);
    assert(-sx <= dx <= sx) by (nonlinear_arith)
        requires 4 * (dx * dx + dy * dy) <= d * d, 0 <= d <= 2 * sx;
    assert(-sy <= dy <= sy) by (nonlinear_arith)
        requires 4 * (dx * dx + dy * dy) <= d * d, 0 <= d <= 2 * sy;
}

/// A spatial hash grid over objects with a position and a diameter.
pub struct Grid<T> {
    /// The cells, row by row; each holds the objects whose centre lies in it.
    cells: Vec<Vec<T>>,
    /// For each object id, the cell that holds it.
    idlookup: AHashMap<u32, usize>,
    size: (i64, i64),
    spacing: (i64, i64),
    span: (usize, usize),
    objects: Ghost<Map<u32, T>>,
}

impl<T: Spatial2D> View for Grid<T> {
    type V = GridView<T>;

    closed spec fn view(&self) -> GridView<T> {
        GridView {
            objects: self.objects@,
            size_x: self.size.0 as int,
            size_y: self.size.1 as int,
            spacing_x: self.spacing.0 as int,
            spacing_y: self.spacing.1 as int,
        }
    }
}

impl<T: Spatial2D> Grid<T> {
    /// The index of the cell that holds a centre at `(x, y)`.
    closed spec fn cell_of(&self, x: int, y: int) -> int {
        cell_coord(x, self.spacing.0 as int, self.span.0 as int) + cell_coord(
            y,
            self.spacing.1 as int,
            self.span.1 as int,
        ) * self.span.0
    }

    /// The grid's internal consistency: the reverse lookup names the cell
    /// that holds each object, and cells hold exactly the objects.
    pub closed spec fn wf(&self) -> bool {
        &&& valid_layout(self.size.0 as int, self.size.1 as int, self.spacing.0 as int, self.spacing.1 as int)
        &&& self.span.0 == self.size.0 / self.spacing.0
        &&& self.span.1 == self.size.1 / self.spacing.1
        &&& self.span.0 >= 1
        &&& self.span.1 >= 1
        &&& self.cells@.len() == self.span.0 * self.span.1
        &&& id_cells(self.idlookup).dom() == self.objects@.dom()
        &&& forall|k: u32| #[trigger] self.objects@.contains_key(k) ==> {
            let o = self.objects@[k];
            &&& o.key() == k
            &&& placed(o, self@)
            &&& id_cells(self.idlookup)[k] == self.cell_of(o.pos_x(), o.pos_y())
            &&& id_cells(self.idlookup)[k] < self.cells@.len()
        }
        &&& forall|c: int, i: int| 0 <= c < self.cells@.len() && 0 <= i < self.cells@[c]@.len() ==> {
            let o = #[trigger] self.cells@[c]@[i];
            &&& self.objects@.contains_key(o.key())
            &&& self.objects@[o.key()] == o
            &&& id_cells(self.idlookup)[o.key()] == c
        }
        &&& forall|k: u32| #[trigger] self.objects@.contains_key(k) ==> exists|i: int|
            0 <= i < self.cells@[id_cells(self.idlookup)[k] as int]@.len()
            && #[trigger] self.cells@[id_cells(self.idlookup)[k] as int]@[i].key() == k
        &&& forall|c: int, i: int, j: int|
            0 <= c < self.cells@.len() && 0 <= i < self.cells@[c]@.len() && 0 <= j < self.cells@[c]@.len()
            && i != j ==> #[trigger] self.cells@[c]@[i].key() != #[trigger] self.cells@[c]@[j].key()
    }

    /// An empty grid over a world of `size_x` by `size_y` units, with cells
    /// of `spacing_x` by `spacing_y` units (as many whole cells as fit).
    pub fn new(size_x: i64, size_y: i64, spacing_x: i64, spacing_y: i64) -> (r: Grid<T>)
        requires
            valid_layout(size_x as int, size_y as int, spacing_x as int, spacing_y as int),
        ensures
            r.wf(),
            r@.objects.dom().is_empty(),
            r@.size_x == size_x,
            r@.size_y == size_y,
            r@.spacing_x == spacing_x,
            r@.spacing_y == spacing_y,
    {
        assert(size_x / spacing_x >= 1 && size_y / spacing_y >= 1) by (nonlinear_arith)
            requires 0 < spacing_x <= size_x, 0 < spacing_y <= size_y;
        let span_x = (size_x / spacing_x) as usize;
        let span_y = (size_y / spacing_y) as usize;
        let n = span_x * span_y;
        let mut cells: Vec<Vec<T>> = Vec::with_capacity(n);
        let mut i: usize = 0;
        while i < n
            invariant
                i <= n,
                cells@.len() == i,
                forall|c: int| 0 <= c < i ==> (#[trigger] cells@[c])@.len() == 0,
            decreases n - i,
        {
            cells.push(Vec::new());
            i = i + 1;
        }
        let g = Grid {
            cells,
            idlookup: id_cells_new(),
            size: (size_x, size_y),
            spacing: (spacing_x, spacing_y),
            span: (span_x, span_y),
            objects: Ghost(Map::empty()),
        };
        assert(id_cells(g.idlookup).dom() =~= g.objects@.dom());
        g
    }
}

impl<T: Spatial2D> Grid<T> {
    /// The index of the cell that holds a centre at `(x, y)`.
    fn cell_index(&self, x: i64, y: i64) -> (r: usize)
        requires
            self.wf(),
            0 <= x < self.size.0,
            0 <= y < self.size.1,
        ensures
            r == self.cell_of(x as int, y as int),
            r < self.cells@.len(),
    {
        let mut cx = (x / self.spacing.0) as usize;
        if cx >= self.span.0 {
            cx = self.span.0 - 1;
        }
        let mut cy = (y / self.spacing.1) as usize;
        if cy >= self.span.1 {
            cy = self.span.1 - 1;
        }
        assert(cx + cy * self.span.0 < self.span.0 * self.span.1) by (nonlinear_arith)
            requires cx < self.span.0, cy < self.span.1;
        assert(self.span.0 * self.span.1 <= MAX_CELLS);
        cx + cy * self.span.0
    }

    /// The slot of the object with id `k` in cell `c`.
    fn slot_of(&self, c: usize, k: u32) -> (r: usize)
        requires
            c < self.cells@.len(),
            exists|i: int| 0 <= i < self.cells@[c as int]@.len() && #[trigger] self.cells@[c as int]@[i].key() == k,
        ensures
            r < self.cells@[c as int]@.len(),
            self.cells@[c as int]@[r as int].key() == k,
    {
        let cell = &self.cells[c];
        let mut i: usize = 0;
        while i < cell.len()
            invariant
                cell@ == self.cells@[c as int]@,
                i <= cell@.len(),
                forall|j: int| 0 <= j < i ==> #[trigger] cell@[j].key() != k,
            decreases cell@.len() - i,
        {
            if cell[i].id() == k {
                return i;
            }
            i = i + 1;
        }
        i
    }

    /// Adds an object to the grid, in the cell that holds its centre.
    pub fn push(&mut self, obj: T)
        requires
            old(self).wf(),
            !old(self)@.objects.contains_key(obj.key()),
            placed(obj, old(self)@),
        ensures
            final(self).wf(),
            final(self)@ == (GridView {
                objects: old(self)@.objects.insert(obj.key(), obj),
                ..old(self)@
            }),
    {
        let k = obj.id();
        let c = self.cell_index(obj.x(), obj.y());
        let ghost old_cells = self.cells@;
        let ghost obj_g = obj;
        self.cells[c].push(obj);
        id_cells_insert(&mut self.idlookup, k, c);
        self.objects = Ghost(self.objects@.insert(k, obj_g));
        proof {
            assert(self.cells@[c as int]@ == old_cells[c as int]@.push(obj_g));
            assert(forall|c2: int| 0 <= c2 < old_cells.len() && c2 != c ==> self.cells@[c2] == old_cells[c2]);
            assert(self.cells@[c as int]@[old_cells[c as int]@.len() as int] == obj_g);
            assert forall|k2: u32| #[trigger] self.objects@.contains_key(k2) implies exists|i: int|
                0 <= i < self.cells@[id_cells(self.idlookup)[k2] as int]@.len()
                && #[trigger] self.cells@[id_cells(self.idlookup)[k2] as int]@[i].key() == k2 by {
                if k2 == k {
                    let i = old_cells[c as int]@.len() as int;
                    assert(id_cells(self.idlookup)[k2] == c);
                    assert(self.cells@[c as int]@[i].key() == k2);
                    assert(0 <= i < self.cells@[id_cells(self.idlookup)[k2] as int]@.len());
                } else {
                    let ci = id_cells(self.idlookup)[k2] as int;
                    assert(old(self).objects@.contains_key(k2));
                    let i = choose|i: int| 0 <= i < old_cells[ci]@.len() && #[trigger] old_cells[ci]@[i].key() == k2;
                    if ci == c {
                        assert(self.cells@[ci]@[i] == old_cells[ci]@[i]);
                    }
                    assert(self.cells@[ci]@[i].key() == k2);
                }
            }
            assert(id_cells(self.idlookup).dom() =~= self.objects@.dom());
        }
    }

    /// Takes the object with id `objid` out of the grid and returns it.
    pub fn remove(&mut self, objid: u32) -> (r: T)
        requires
            old(self).wf(),
            old(self)@.objects.contains_key(objid),
        ensures
            final(self).wf(),
            r == old(self)@.objects[objid],
            final(self)@ == (GridView { objects: old(self)@.objects.remove(objid), ..old(self)@ }),
    {
        let c = match id_cells_get(&self.idlookup, objid) {
            Some(c) => c,
            None => { proof { assert(false); } 0 }
        };
        let ghost old_cells = self.cells@;
        let ghost old_objects = self.objects@;
        let ghost old_index = id_cells(self.idlookup);
        let i = self.slot_of(c, objid);
        let obj = self.cells[c].remove(i);
        id_cells_remove(&mut self.idlookup, objid);
        self.objects = Ghost(self.objects@.remove(objid));
        proof {
            assert(old_cells[c as int]@[i as int] == obj);
            assert(obj == old_objects[objid]);
            assert forall|c2: int, j: int| 0 <= c2 < self.cells@.len() && 0 <= j < self.cells@[c2]@.len() implies {
                let o = #[trigger] self.cells@[c2]@[j];
                &&& self.objects@.contains_key(o.key())
                &&& self.objects@[o.key()] == o
                &&& id_cells(self.idlookup)[o.key()] == c2
            } by {
                if c2 == c {
                    let jj = if j < i { j } else { j + 1 };
                    assert(self.cells@[c2]@[j] == old_cells[c2]@[jj]);
                    assert(old_cells[c2]@[jj].key() != old_cells[c2]@[i as int].key());
                } else {
                    assert(self.cells@[c2]@[j] == old_cells[c2]@[j]);
                }
            }
            assert forall|k2: u32| #[trigger] self.objects@.contains_key(k2) implies exists|j: int|
                0 <= j < self.cells@[id_cells(self.idlookup)[k2] as int]@.len()
                && #[trigger] self.cells@[id_cells(self.idlookup)[k2] as int]@[j].key() == k2 by {
                let ci = old_index[k2] as int;
                let j = choose|j: int| 0 <= j < old_cells[ci]@.len() && #[trigger] old_cells[ci]@[j].key() == k2;
                if ci == c {
                    assert(j != i);
                    let jj = if j < i { j } else { j - 1 };
                    assert(self.cells@[ci]@[jj].key() == k2);
                } else {
                    assert(self.cells@[ci]@[j].key() == k2);
                }
            }
            assert forall|c2: int, a: int, b: int|
                0 <= c2 < self.cells@.len() && 0 <= a < self.cells@[c2]@.len() && 0 <= b < self.cells@[c2]@.len()
                && a != b implies #[trigger] self.cells@[c2]@[a].key() != #[trigger] self.cells@[c2]@[b].key() by {
                if c2 == c {
                    let aa = if a < i { a } else { a + 1 };
                    let bb = if b < i { b } else { b + 1 };
                    assert(self.cells@[c2]@[a] == old_cells[c2]@[aa]);
                    assert(self.cells@[c2]@[b] == old_cells[c2]@[bb]);
                } else {
                    assert(self.cells@[c2]@[a] == old_cells[c2]@[a]);
                    assert(self.cells@[c2]@[b] == old_cells[c2]@[b]);
                }
            }
            assert(id_cells(self.idlookup).dom() =~= self.objects@.dom());
        }
        obj
    }
}

impl<T: Spatial2D> Grid<T> {
    /// Moves the object with id `objid` by `(x_inc, y_inc)`, wrapping its
    /// centre around the world by one period on each axis.
    pub fn move_obj(&mut self, objid: u32, x_inc: i64, y_inc: i64)
        requires
            old(self).wf(),
            old(self)@.objects.contains_key(objid),
            -old(self)@.size_x < x_inc < old(self)@.size_x,
            -old(self)@.size_y < y_inc < old(self)@.size_y,
        ensures
            final(self).wf(),
            final(self)@ == (GridView {
                objects: old(self)@.objects.insert(
                    objid,
                    old(self)@.objects[objid].moved_to(
                        wrapped(old(self)@.objects[objid].pos_x(), x_inc as int, old(self)@.size_x),
                        wrapped(old(self)@.objects[objid].pos_y(), y_inc as int, old(self)@.size_y),
                    ),
                ),
                ..old(self)@
            }),
    {
        let mut obj = self.remove(objid);
        let nx = wrap_add(obj.x(), x_inc, self.size.0);
        let ny = wrap_add(obj.y(), y_inc, self.size.1);
        proof {
            obj.lemma_moved_to(nx as int, ny as int);
        }
        obj.set_position(nx, ny);
        self.push(obj);
        proof {
            assert(self@.objects =~= old(self)@.objects.insert(objid, obj));
        }
    }
}

/// The rows (or columns) at and next to `a` on an axis of `span` cells.
fn near_list(a: usize, span: usize) -> (r: Vec<usize>)
    requires
        a < span,
    ensures
        r@.no_duplicates(),
        forall|b: usize| #[trigger] r@.contains(b) <==> near(a as int, b as int, span as int),
{
    let next = if a + 1 < span { a + 1 } else { 0 };
    let prev = if a > 0 { a - 1 } else { span - 1 };
    proof {
        if a + 1 < span {
            lemma_fundamental_div_mod_converse(a + 1, span as int, 0, a + 1);
        } else {
            lemma_fundamental_div_mod_converse(a + 1, span as int, 1, 0);
        }
        if a > 0 {
            lemma_fundamental_div_mod_converse(a + span - 1, span as int, 1, a - 1);
        } else {
            lemma_fundamental_div_mod_converse(a + span - 1, span as int, 0, span - 1);
        }
    }
    let mut r: Vec<usize> = Vec::new();
    r.push(a);
    if next != a {
        r.push(next);
    }
    if prev != a && prev != next {
        r.push(prev);
    }
    proof {
        assert forall|b: usize| #[trigger] r@.contains(b) <==> near(a as int, b as int, span as int) by {
            if near(a as int, b as int, span as int) {
                if b == a {
                    assert(r@[0] == b);
                } else if b == next {
                    assert(r@[1] == b);
                } else {
                    assert(r@[r@.len() - 1] == b);
                }
            }
        }
    }
    r
}

/// Whether cell `n` is cell `c` or one of its eight neighbours, on a grid of
/// `sx` by `sy` cells that wraps around.
pub open spec fn near_cell(c: int, n: int, sx: int, sy: int) -> bool {
    0 <= n < sx * sy && near(c % sx, n % sx, sx) && near(c / sx, n / sx, sy)
}

proof fn lemma_take_next(s: Seq<usize>, i: int)
    requires
        0 <= i < s.len(),
    ensures
        forall|x: usize| #[trigger] s.take(i + 1).contains(x) <==> (s.take(i).contains(x) || s[i] == x),
{
    assert forall|x: usize| #[trigger] s.take(i + 1).contains(x) <==> (s.take(i).contains(x) || s[i] == x) by {
        if s.take(i + 1).contains(x) {
            let j = choose|j: int| 0 <= j < i + 1 && #[trigger] s.take(i + 1)[j] == x;
            if j < i {
                assert(s.take(i)[j] == x);
            }
        }
        if s.take(i).contains(x) {
            let j = choose|j: int| 0 <= j < i && #[trigger] s.take(i)[j] == x;
            assert(s.take(i + 1)[j] == x);
        }
        if s[i] == x {
            assert(s.take(i + 1)[i] == x);
        }
    }
}

proof fn lemma_cell_split(col: int, row: int, sx: int, sy: int)
    requires
        0 <= col < sx,
        0 <= row < sy,
    ensures
        (col + row * sx) % sx == col,
        (col + row * sx) / sx == row,
        0 <= col + row * sx < sx * sy,
{
    lemma_fundamental_div_mod_converse(col + row * sx, sx, row, col);
    assert(0 <= col + row * sx < sx * sy) by (nonlinear_arith)
        requires 0 <= col < sx, 0 <= row < sy;
}

impl<T: Spatial2D> Grid<T> {
    /// The cells at and around cell `c`, each once.
    fn neighbor_cells(&self, c: usize) -> (r: Vec<usize>)
        requires
            self.wf(),
            c < self.cells@.len(),
        ensures
            r@.no_duplicates(),
            forall|n: usize| #[trigger] r@.contains(n) <==> near_cell(c as int, n as int, self.span.0 as int, self.span.1 as int),
    {
        let sx = self.span.0;
        let sy = self.span.1;
        assert(c as int % sx as int >= 0 && (c as int) % (sx as int) < sx && c as int / sx as int >= 0 && (c as int) / (sx as int) < sy) by (nonlinear_arith)
            requires 0 <= c < sx * sy, sx >= 1;
        let cols = near_list(c % sx, sx);
        let rows = near_list(c / sx, sy);
        let mut r: Vec<usize> = Vec::new();
        let mut ri: usize = 0;
        while ri < rows.len()
            invariant
                self.wf(),
                sx == self.span.0,
                sy == self.span.1,
                c < sx * sy,
                ri <= rows@.len(),
                rows@.no_duplicates(),
                cols@.no_duplicates(),
                forall|b: usize| #[trigger] rows@.contains(b) <==> near((c / sx) as int, b as int, sy as int),
                forall|b: usize| #[trigger] cols@.contains(b) <==> near((c % sx) as int, b as int, sx as int),
                r@.no_duplicates(),
                forall|n: usize| #[trigger] r@.contains(n) <==> (near_cell(c as int, n as int, sx as int, sy as int)
                    && rows@.take(ri as int).contains((n / sx) as usize)),
            decreases rows@.len() - ri,
        {
            let row = rows[ri];
            assert(rows@.contains(row));
            let mut ci: usize = 0;
            while ci < cols.len()
                invariant
                    self.wf(),
                    sx == self.span.0,
                    sy == self.span.1,
                    c < sx * sy,
                    ri < rows@.len(),
                    row == rows@[ri as int],
                    row < sy,
                    ci <= cols@.len(),
                    rows@.no_duplicates(),
                    cols@.no_duplicates(),
                    forall|b: usize| #[trigger] rows@.contains(b) <==> near((c / sx) as int, b as int, sy as int),
                    forall|b: usize| #[trigger] cols@.contains(b) <==> near((c % sx) as int, b as int, sx as int),
                    r@.no_duplicates(),
                    forall|n: usize| #[trigger] r@.contains(n) <==> (near_cell(c as int, n as int, sx as int, sy as int)
                        && (rows@.take(ri as int).contains((n / sx) as usize)
                            || (n / sx == row && cols@.take(ci as int).contains((n % sx) as usize)))),
                decreases cols@.len() - ci,
            {
                let col = cols[ci];
                assert(cols@.contains(col));
                proof {
                    lemma_cell_split(col as int, row as int, sx as int, sy as int);
                }
                let n = col + row * sx;
                let ghost before = r@;
                proof {
                    assert(!before.contains(n)) by {
                        if before.contains(n) {
                            if rows@.take(ri as int).contains(row) {
                                let j = choose|j: int| 0 <= j < ri && rows@.take(ri as int)[j] == row;
                                assert(rows@[j] == rows@[ri as int]);
                            } else {
                                let j = choose|j: int| 0 <= j < ci && cols@.take(ci as int)[j] == col;
                                assert(cols@[j] == cols@[ci as int]);
                            }
                        }
                    }
                }
                r.push(n);
                proof {
                    lemma_take_next(cols@, ci as int);
                    assert(near((c % sx) as int, col as int, sx as int));
                    assert(rows@.contains(row));
                    assert(near((c / sx) as int, row as int, sy as int));
                    assert(n as int == col as int + row as int * sx as int);
                    assert((n as int) % (sx as int) == col);
                    assert((n as int) / (sx as int) == row);
                    assert(near_cell(c as int, n as int, sx as int, sy as int));
                    assert forall|m: usize| #[trigger] r@.contains(m) <==> (near_cell(c as int, m as int, sx as int, sy as int)
                        && (rows@.take(ri as int).contains((m / sx) as usize)
                            || (m / sx == row && cols@.take(ci + 1).contains((m % sx) as usize)))) by {
                        if m == n {
                            assert(r@[before.len() as int] == m);
                            assert(cols@.take(ci + 1).contains(col));
                        } else {
                            assert(r@.contains(m) <==> before.contains(m)) by {
                                if r@.contains(m) {
                                    let j = choose|j: int| 0 <= j < r@.len() && r@[j] == m;
                                    assert(before[j] == m);
                                }
                                if before.contains(m) {
                                    let j = choose|j: int| 0 <= j < before.len() && before[j] == m;
                                    assert(r@[j] == m);
                                }
                            }
                            if m / sx == row && (m % sx) as usize == col {
                                assert(m == (m % sx) + (m / sx) * sx) by (nonlinear_arith)
                                    requires sx >= 1, m >= 0;
                            }
                        }
                    }
                }
                ci = ci + 1;
            }
            proof {
                assert(cols@.take(cols@.len() as int) == cols@);
                lemma_take_next(rows@, ri as int);
                assert forall|m: usize| #[trigger] r@.contains(m) <==> (near_cell(c as int, m as int, sx as int, sy as int)
                    && rows@.take(ri + 1).contains((m / sx) as usize)) by {
                    if near_cell(c as int, m as int, sx as int, sy as int) && m / sx == row {
                        assert(0 <= m % sx < sx) by (nonlinear_arith)
                            requires sx >= 1, m >= 0;
                        assert(cols@.contains((m % sx) as usize));
                    }
                }
            }
            ri = ri + 1;
        }
        proof {
            assert(rows@.take(rows@.len() as int) == rows@);
            assert forall|n: usize| #[trigger] r@.contains(n) <==> near_cell(c as int, n as int, sx as int, sy as int) by {
                if near_cell(c as int, n as int, sx as int, sy as int) {
                    assert(0 <= n / sx < sy) by (nonlinear_arith)
                        requires sx >= 1, 0 <= n < sx * sy;
                    assert(rows@.contains((n / sx) as usize));
                }
            }
        }
        r
    }
}

/// Whether the discs `a` and `b` touch or overlap.
fn touches<T: Spatial2D>(a: &T, b: &T) -> (r: bool)
    requires
        0 <= a.pos_x() < MAX_EXTENT,
        0 <= a.pos_y() < MAX_EXTENT,
        0 <= b.pos_x() < MAX_EXTENT,
        0 <= b.pos_y() < MAX_EXTENT,
        0 <= a.extent() <= MAX_EXTENT,
        0 <= b.extent() <= MAX_EXTENT,
    ensures
        r == touching(*a, *b),
{
    let dx = b.x() - a.x();
    let dy = b.y() - a.y();
    let d = a.diameter() + b.diameter();
    assert(0 <= dx * dx <= 0x100_0000_0000_0000 && 0 <= dy * dy <= 0x100_0000_0000_0000)
        by (nonlinear_arith)
        requires -0x1000_0000 <= dx <= 0x1000_0000, -0x1000_0000 <= dy <= 0x1000_0000;
    assert(0 <= d * d <= 0x400_0000_0000_0000) by (nonlinear_arith)
        requires 0 <= d <= 0x2000_0000;
    4 * (dx * dx + dy * dy) <= d * d
}

impl<T: Spatial2D> Grid<T> {
    /// Touching objects lie in neighbouring cells.
    proof fn lemma_collision_near(&self, ka: u32, kb: u32)
        requires
            self.wf(),
            self.objects@.contains_key(ka),
            self.objects@.contains_key(kb),
            touching(self.objects@[ka], self.objects@[kb]),
        ensures
            near_cell(
                id_cells(self.idlookup)[ka] as int,
                id_cells(self.idlookup)[kb] as int,
                self.span.0 as int,
                self.span.1 as int,
            ),
    {
        let a = self.objects@[ka];
        let b = self.objects@[kb];
        let sx = self.span.0 as int;
        let sy = self.span.1 as int;
        let spx = self.spacing.0 as int;
        let spy = self.spacing.1 as int;
        lemma_touching_close(a, b, spx, spy);
        lemma_near_coords(a.pos_x(), b.pos_x(), spx, sx);
        lemma_near_coords(a.pos_y(), b.pos_y(), spy, sy);
        assert(a.pos_x() / spx >= 0 && a.pos_y() / spy >= 0 && b.pos_x() / spx >= 0 && b.pos_y() / spy >= 0)
            by (nonlinear_arith)
            requires a.pos_x() >= 0, a.pos_y() >= 0, b.pos_x() >= 0, b.pos_y() >= 0, spx > 0, spy > 0;
        let ax = cell_coord(a.pos_x(), spx, sx);
        let ay = cell_coord(a.pos_y(), spy, sy);
        let bx = cell_coord(b.pos_x(), spx, sx);
        let by = cell_coord(b.pos_y(), spy, sy);
        lemma_cell_split(ax, ay, sx, sy);
        lemma_cell_split(bx, by, sx, sy);
    }

    /// Adds to `acc` every pair of the object in slot `i` of cell `c` with a
    /// higher id object that it touches.
    fn scan_object(&self, c: usize, i: usize, acc: &mut Vec<(u32, u32)>)
        requires
            self.wf(),
            c < self.cells@.len(),
            i < self.cells@[c as int]@.len(),
            ascending(old(acc)@),
        ensures
            ascending(final(acc)@),
            forall|q: (u32, u32)| #[trigger] final(acc)@.contains(q) <==> (old(acc)@.contains(q) || (
                q.0 == self.cells@[c as int]@[i as int].key() && is_collision(self.objects@, q))),
    {
        let a = &self.cells[c][i];
        let ka = a.id();
        let ghost objs = self.objects@;
        let ghost index = id_cells(self.idlookup);
        assert(objs.contains_key(ka) && objs[ka] == *a && index[ka] == c);
        let nbrs = self.neighbor_cells(c);
        let mut t: usize = 0;
        while t < nbrs.len()
            invariant
                self.wf(),
                objs == self.objects@,
                index == id_cells(self.idlookup),
                c < self.cells@.len(),
                i < self.cells@[c as int]@.len(),
                *a == self.cells@[c as int]@[i as int],
                ka == a.key(),
                objs.contains_key(ka) && objs[ka] == *a && index[ka] == c,
                t <= nbrs@.len(),
                nbrs@.no_duplicates(),
                forall|n: usize| #[trigger] nbrs@.contains(n) <==> near_cell(c as int, n as int, self.span.0 as int, self.span.1 as int),
                ascending(acc@),
                forall|q: (u32, u32)| #[trigger] acc@.contains(q) <==> (old(acc)@.contains(q) || (
                    q.0 == ka && is_collision(objs, q) && nbrs@.take(t as int).contains(index[q.1]))),
            decreases nbrs@.len() - t,
        {
            let n = nbrs[t];
            assert(nbrs@.contains(n));
            assert(n < self.cells@.len());
            let cell = &self.cells[n];
            let mut j: usize = 0;
            while j < cell.len()
                invariant
                    self.wf(),
                    objs == self.objects@,
                    index == id_cells(self.idlookup),
                    *a == self.cells@[c as int]@[i as int],
                    ka == a.key(),
                    objs.contains_key(ka) && objs[ka] == *a && index[ka] == c,
                    t < nbrs@.len(),
                    n == nbrs@[t as int],
                    n < self.cells@.len(),
                    cell@ == self.cells@[n as int]@,
                    j <= cell@.len(),
                    nbrs@.no_duplicates(),
                    ascending(acc@),
                    forall|q: (u32, u32)| #[trigger] acc@.contains(q) <==> (old(acc)@.contains(q) || (
                        q.0 == ka && is_collision(objs, q) && (nbrs@.take(t as int).contains(index[q.1])
                            || (index[q.1] == n && exists|jj: int| 0 <= jj < j && #[trigger] cell@[jj].key() == q.1)))),
                decreases cell@.len() - j,
            {
                let b = &cell[j];
                let kb = b.id();
                assert(objs.contains_key(kb) && objs[kb] == *b && index[kb] == n);
                if kb > ka && touches(a, b) {
                    insert_pair(acc, (ka, kb));
                }
                proof {
                    assert forall|q: (u32, u32)| #[trigger] acc@.contains(q) <==> (old(acc)@.contains(q) || (
                        q.0 == ka && is_collision(objs, q) && (nbrs@.take(t as int).contains(index[q.1])
                            || (index[q.1] == n && exists|jj: int| 0 <= jj < j + 1 && #[trigger] cell@[jj].key() == q.1)))) by {
                        if q.0 == ka && q.1 == kb {
                            assert(cell@[j as int].key() == q.1);
                        }
                        if index[q.1] == n && q.1 != kb && (exists|jj: int| 0 <= jj < j + 1 && #[trigger] cell@[jj].key() == q.1) {
                            let jj = choose|jj: int| 0 <= jj < j + 1 && #[trigger] cell@[jj].key() == q.1;
                            assert(jj != j);
                        }
                        if q.1 == kb && q.0 == ka && index[q.1] == n && nbrs@.take(t as int).contains(n) {
                            let tt = choose|tt: int| 0 <= tt < t && nbrs@.take(t as int)[tt] == n;
                            assert(nbrs@[tt] == nbrs@[t as int]);
                        }
                    }
                }
                j = j + 1;
            }
            proof {
                lemma_take_next(nbrs@, t as int);
                assert forall|q: (u32, u32)| #[trigger] acc@.contains(q) <==> (old(acc)@.contains(q) || (
                    q.0 == ka && is_collision(objs, q) && nbrs@.take(t + 1).contains(index[q.1]))) by {
                    if q.0 == ka && is_collision(objs, q) && index[q.1] == n {
                        let o = objs[q.1];
                        let ii = choose|ii: int| 0 <= ii < self.cells@[index[q.1] as int]@.len()
                            && #[trigger] self.cells@[index[q.1] as int]@[ii].key() == q.1;
                        assert(cell@[ii].key() == q.1);
                    }
                }
            }
            t = t + 1;
        }
        proof {
            assert(nbrs@.take(nbrs@.len() as int) == nbrs@);
            assert forall|q: (u32, u32)| #[trigger] acc@.contains(q) <==> (old(acc)@.contains(q) || (
                q.0 == ka && is_collision(objs, q))) by {
                if q.0 == ka && is_collision(objs, q) {
                    self.lemma_collision_near(ka, q.1);
                    assert(nbrs@.contains(index[q.1] as usize));
                }
            }
        }
    }
}

impl<T: Spatial2D> Grid<T> {
    /// Every pair of ids `p < q` whose objects touch, in ascending order.
    fn find_collisions(&self) -> (r: Vec<(u32, u32)>)
        requires
            self.wf(),
        ensures
            ascending(r@),
            forall|q: (u32, u32)| #[trigger] r@.contains(q) <==> is_collision(self.objects@, q),
    {
        let ghost objs = self.objects@;
        let ghost index = id_cells(self.idlookup);
        let mut acc: Vec<(u32, u32)> = Vec::new();
        let mut c: usize = 0;
        while c < self.cells.len()
            invariant
                self.wf(),
                objs == self.objects@,
                index == id_cells(self.idlookup),
                c <= self.cells@.len(),
                ascending(acc@),
                forall|q: (u32, u32)| #[trigger] acc@.contains(q) <==> (is_collision(objs, q) && index[q.0] < c),
            decreases self.cells@.len() - c,
        {
            let mut i: usize = 0;
            while i < self.cells[c].len()
                invariant
                    self.wf(),
                    objs == self.objects@,
                    index == id_cells(self.idlookup),
                    c < self.cells@.len(),
                    i <= self.cells@[c as int]@.len(),
                    ascending(acc@),
                    forall|q: (u32, u32)| #[trigger] acc@.contains(q) <==> (is_collision(objs, q) && (index[q.0] < c
                        || (index[q.0] == c && exists|ii: int| 0 <= ii < i && #[trigger] self.cells@[c as int]@[ii].key() == q.0))),
                decreases self.cells@[c as int]@.len() - i,
            {
                self.scan_object(c, i, &mut acc);
                proof {
                    let ka = self.cells@[c as int]@[i as int].key();
                    assert(index[ka] == c);
                    assert forall|q: (u32, u32)| #[trigger] acc@.contains(q) <==> (is_collision(objs, q) && (index[q.0] < c
                        || (index[q.0] == c && exists|ii: int| 0 <= ii < i + 1 && #[trigger] self.cells@[c as int]@[ii].key() == q.0))) by {
                        if q.0 == ka {
                            assert(self.cells@[c as int]@[i as int].key() == q.0);
                        }
                        if index[q.0] == c && q.0 != ka && (exists|ii: int| 0 <= ii < i + 1 && #[trigger] self.cells@[c as int]@[ii].key() == q.0) {
                            let ii = choose|ii: int| 0 <= ii < i + 1 && #[trigger] self.cells@[c as int]@[ii].key() == q.0;
                            assert(ii != i);
                        }
                    }
                }
                i = i + 1;
            }
            proof {
                assert forall|q: (u32, u32)| #[trigger] acc@.contains(q) <==> (is_collision(objs, q) && index[q.0] < c + 1) by {
                    if is_collision(objs, q) && index[q.0] == c {
                        let ii = choose|ii: int| 0 <= ii < self.cells@[index[q.0] as int]@.len()
                            && #[trigger] self.cells@[index[q.0] as int]@[ii].key() == q.0;
                    }
                }
            }
            c = c + 1;
        }
        proof {
            assert forall|q: (u32, u32)| #[trigger] acc@.contains(q) <==> is_collision(objs, q) by {
                if is_collision(objs, q) {
                    assert(objs.contains_key(q.0));
                }
            }
        }
        acc
    }

    /// The ids of all objects, each once.
    pub fn ids(&self) -> (r: Vec<u32>)
        requires
            self.wf(),
        ensures
            r@.no_duplicates(),
            forall|k: u32| #[trigger] r@.contains(k) <==> self@.objects.contains_key(k),
    {
        let ghost index = id_cells(self.idlookup);
        let mut r: Vec<u32> = Vec::new();
        let mut c: usize = 0;
        while c < self.cells.len()
            invariant
                self.wf(),
                index == id_cells(self.idlookup),
                c <= self.cells@.len(),
                r@.no_duplicates(),
                forall|k: u32| #[trigger] r@.contains(k) <==> (self.objects@.contains_key(k) && index[k] < c),
            decreases self.cells@.len() - c,
        {
            let mut i: usize = 0;
            while i < self.cells[c].len()
                invariant
                    self.wf(),
                    index == id_cells(self.idlookup),
                    c < self.cells@.len(),
                    i <= self.cells@[c as int]@.len(),
                    r@.no_duplicates(),
                    forall|k: u32| #[trigger] r@.contains(k) <==> (self.objects@.contains_key(k) && (index[k] < c
                        || (index[k] == c && exists|ii: int| 0 <= ii < i && #[trigger] self.cells@[c as int]@[ii].key() == k))),
                decreases self.cells@[c as int]@.len() - i,
            {
                let k = self.cells[c][i].id();
                let ghost before = r@;
                proof {
                    assert(index[k] == c);
                    if before.contains(k) {
                        let ii = choose|ii: int| 0 <= ii < i && #[trigger] self.cells@[c as int]@[ii].key() == k;
                        assert(ii != i);
                    }
                }
                r.push(k);
                proof {
                    assert forall|k2: u32| #[trigger] r@.contains(k2) <==> (self.objects@.contains_key(k2) && (index[k2] < c
                        || (index[k2] == c && exists|ii: int| 0 <= ii < i + 1 && #[trigger] self.cells@[c as int]@[ii].key() == k2))) by {
                        if k2 == k {
                            assert(r@[before.len() as int] == k2);
                            assert(self.cells@[c as int]@[i as int].key() == k2);
                        } else {
                            if r@.contains(k2) {
                                let j = choose|j: int| 0 <= j < r@.len() && r@[j] == k2;
                                assert(before[j] == k2);
                            }
                            if before.contains(k2) {
                                let j = choose|j: int| 0 <= j < before.len() && before[j] == k2;
                                assert(r@[j] == k2);
                            }
                            if index[k2] == c && (exists|ii: int| 0 <= ii < i + 1 && #[trigger] self.cells@[c as int]@[ii].key() == k2) {
                                let ii = choose|ii: int| 0 <= ii < i + 1 && #[trigger] self.cells@[c as int]@[ii].key() == k2;
                                assert(ii != i);
                            }
                        }
                    }
                }
                i = i + 1;
            }
            proof {
                assert forall|k: u32| #[trigger] r@.contains(k) <==> (self.objects@.contains_key(k) && index[k] < c + 1) by {
                    if self.objects@.contains_key(k) && index[k] == c {
                        let ii = choose|ii: int| 0 <= ii < self.cells@[index[k] as int]@.len()
                            && #[trigger] self.cells@[index[k] as int]@[ii].key() == k;
                    }
                }
            }
            c = c + 1;
        }
        r
    }

    /// References to all the objects, each once.
    pub fn iter(&self) -> (r: Vec<&T>)
        requires
            self.wf(),
        ensures
            forall|i: int| 0 <= i < r@.len() ==> self@.objects.contains_key((#[trigger] r@[i]).key())
                && self@.objects[r@[i].key()] == *r@[i],
            forall|i: int, j: int| 0 <= i < j < r@.len() ==> (#[trigger] r@[i]).key() != (#[trigger] r@[j]).key(),
            forall|k: u32| #[trigger] self@.objects.contains_key(k) ==> exists|i: int| 0 <= i < r@.len() && (#[trigger] r@[i]).key() == k,
    {
        let ids = self.ids();
        let mut r: Vec<&T> = Vec::new();
        let mut i: usize = 0;
        while i < ids.len()
            invariant
                self.wf(),
                ids@.no_duplicates(),
                forall|k: u32| #[trigger] ids@.contains(k) <==> self@.objects.contains_key(k),
                i <= ids@.len(),
                r@.len() == i,
                forall|j: int| 0 <= j < i ==> *(#[trigger] r@[j]) == self@.objects[ids@[j]] && r@[j].key() == ids@[j],
            decreases ids@.len() - i,
        {
            let k = ids[i];
            assert(ids@.contains(k));
            proof {
                lemma_objects_in_world(self, k);
            }
            r.push(self.get(k));
            i = i + 1;
        }
        proof {
            assert forall|k: u32| #[trigger] self@.objects.contains_key(k) implies exists|j: int| 0 <= j < r@.len() && (#[trigger] r@[j]).key() == k by {
                assert(ids@.contains(k));
                let j = choose|j: int| 0 <= j < ids@.len() && ids@[j] == k;
                assert(r@[j].key() == k);
            }
            assert forall|a: int, b: int| 0 <= a < b < r@.len() implies (#[trigger] r@[a]).key() != (#[trigger] r@[b]).key() by {
                assert(ids@[a] != ids@[b]);
            }
            assert forall|a: int| 0 <= a < r@.len() implies self@.objects.contains_key((#[trigger] r@[a]).key())
                && self@.objects[r@[a].key()] == *r@[a] by {
                assert(ids@.contains(ids@[a]));
            }
        }
        r
    }

    /// The object with id `k`.
    pub fn get(&self, k: u32) -> (r: &T)
        requires
            self.wf(),
            self@.objects.contains_key(k),
        ensures
            *r == self@.objects[k],
    {
        let c = match id_cells_get(&self.idlookup, k) {
            Some(c) => c,
            None => { proof { assert(false); } 0 }
        };
        let i = self.slot_of(c, k);
        &self.cells[c][i]
    }
}

/// `v` limited to less than one period of an axis of length `size`.
fn clamp_shift(v: i128, size: i64) -> (r: i64)
    requires
        0 < size <= MAX_EXTENT,
    ensures
        r == clamp(v as int, size as int),
        -size < r < size,
{
    if v > (size - 1) as i128 {
        size - 1
    } else if v < -((size - 1) as i128) {
        -(size - 1)
    } else {
        v as i64
    }
}

impl<T: Spatial2D> Grid<T> {
    /// The push that the pair `p` gives its second object.
    fn push_between(&self, p: (u32, u32)) -> (r: (i64, i64))
        requires
            self.wf(),
            is_collision(self@.objects, p),
        ensures
            r.0 == push_of(self@.objects, p).0,
            r.1 == push_of(self@.objects, p).1,
            -MAX_EXTENT <= r.0 <= MAX_EXTENT,
            -MAX_EXTENT <= r.1 <= MAX_EXTENT,
    {
        let a = self.get(p.0);
        let b = self.get(p.1);
        separation_of(b.x() - a.x(), b.y() - a.y(), a.diameter() + b.diameter())
    }

    /// One pass of collision resolution. Every pair of touching objects is
    /// found; each object is then moved by the sum of the pushes from all the
    /// objects it touches, computed from the positions before the pass and
    /// applied together. Returns the touching pairs, smaller id first, in
    /// ascending order.
    pub fn detect_and_resolve_collisions(&mut self) -> (pairs: Vec<(u32, u32)>)
        requires
            old(self).wf(),
        ensures
            final(self).wf(),
            pairs@ == collisions(old(self)@.objects),
            ascending(pairs@),
            forall|q: (u32, u32)| #[trigger] pairs@.contains(q) <==> is_collision(old(self)@.objects, q),
            final(self)@ == (GridView { objects: resolved(old(self)@), ..old(self)@ }),
    {
        let ghost objs = self.objects@;
        let pairs = self.find_collisions();
        proof {
            let s = collisions(objs);
            assert(ascending(pairs@) && forall|p: (u32, u32)| #[trigger] pairs@.contains(p) <==> is_collision(objs, p));
            lemma_ascending_unique(s, pairs@);
        }
        let mut acc = shifts_new();
        let mut t: usize = 0;
        while t < pairs.len()
            invariant
                self.wf(),
                objs == self.objects@,
                pairs@ == collisions(objs),
                forall|q: (u32, u32)| #[trigger] pairs@.contains(q) <==> is_collision(objs, q),
                t <= pairs@.len(),
                forall|k: u32| #[trigger] shifts(acc).contains_key(k) ==> {
                    &&& shifts(acc)[k].0 == correction(objs, pairs@.take(t as int), k).0
                    &&& shifts(acc)[k].1 == correction(objs, pairs@.take(t as int), k).1
                },
                forall|k: u32| !#[trigger] shifts(acc).contains_key(k) ==> correction(objs, pairs@.take(t as int), k) == (0int, 0int),
                forall|k: u32| #[trigger] shifts(acc).contains_key(k) ==> {
                    &&& -(t as int) * MAX_EXTENT <= shifts(acc)[k].0 <= (t as int) * MAX_EXTENT
                    &&& -(t as int) * MAX_EXTENT <= shifts(acc)[k].1 <= (t as int) * MAX_EXTENT
                },
            decreases pairs@.len() - t,
        {
            let p = pairs[t];
            assert(pairs@.contains(p));
            let m = self.push_between(p);
            let ghost before = shifts(acc);
            assert(pairs@.take(t + 1).drop_last() == pairs@.take(t as int));
            assert(pairs@.take(t + 1).last() == p);
            let a = match shifts_get(&acc, p.0) {
                Some(v) => v,
                None => (0i128, 0i128),
            };
            assert(-(t as int) * MAX_EXTENT <= a.0 <= (t as int) * MAX_EXTENT);
            assert((t as int) * MAX_EXTENT <= 0x1_0000_0000_0000_0000 * 0x1000_0000) by (nonlinear_arith)
                requires 0 <= t <= 0x1_0000_0000_0000_0000;
            shifts_insert(&mut acc, p.0, (a.0 - m.0 as i128, a.1 - m.1 as i128));
            let b = match shifts_get(&acc, p.1) {
                Some(v) => v,
                None => (0i128, 0i128),
            };
            assert(p.0 != p.1);
            shifts_insert(&mut acc, p.1, (b.0 + m.0 as i128, b.1 + m.1 as i128));
            proof {
                assert forall|k: u32| #[trigger] shifts(acc).contains_key(k) implies {
                    &&& -((t + 1) as int) * MAX_EXTENT <= shifts(acc)[k].0 <= ((t + 1) as int) * MAX_EXTENT
                    &&& -((t + 1) as int) * MAX_EXTENT <= shifts(acc)[k].1 <= ((t + 1) as int) * MAX_EXTENT
                } by {
                    if k != p.0 && k != p.1 {
                        assert(before.contains_key(k));
                    }
                }
            }
            t = t + 1;
        }
        assert(pairs@.take(pairs@.len() as int) == pairs@);
        let ids = self.ids();
        let mut i: usize = 0;
        while i < ids.len()
            invariant
                self.wf(),
                self@.size_x == old(self)@.size_x,
                self@.size_y == old(self)@.size_y,
                self@.spacing_x == old(self)@.spacing_x,
                self@.spacing_y == old(self)@.spacing_y,
                objs == old(self)@.objects,
                pairs@ == collisions(objs),
                ids@.no_duplicates(),
                forall|k: u32| #[trigger] ids@.contains(k) <==> objs.contains_key(k),
                i <= ids@.len(),
                self@.objects.dom() == objs.dom(),
                forall|k: u32| #[trigger] shifts(acc).contains_key(k) ==> {
                    &&& shifts(acc)[k].0 == correction(objs, pairs@, k).0
                    &&& shifts(acc)[k].1 == correction(objs, pairs@, k).1
                },
                forall|k: u32| !#[trigger] shifts(acc).contains_key(k) ==> correction(objs, pairs@, k) == (0int, 0int),
                forall|k: u32| #[trigger] self@.objects.contains_key(k) ==> self@.objects[k] == (if ids@.take(i as int).contains(k) {
                    resolved(old(self)@)[k]
                } else {
                    objs[k]
                }),
            decreases ids@.len() - i,
        {
            let k = ids[i];
            assert(ids@.contains(k));
            let c = match shifts_get(&acc, k) {
                Some(v) => v,
                None => (0i128, 0i128),
            };
            let dx = clamp_shift(c.0, self.size.0);
            let dy = clamp_shift(c.1, self.size.1);
            proof {
                if ids@.take(i as int).contains(k) {
                    let j = choose|j: int| 0 <= j < i && #[trigger] ids@.take(i as int)[j] == k;
                    assert(ids@[j] == ids@[i as int]);
                }
            }
            let ghost before = self@.objects;
            self.move_obj(k, dx, dy);
            proof {
                assert forall|k2: u32| #[trigger] self@.objects.contains_key(k2) implies self@.objects[k2] == (if ids@.take(i + 1).contains(k2) {
                    resolved(old(self)@)[k2]
                } else {
                    objs[k2]
                }) by {
                    assert(ids@.take(i + 1) == ids@.take(i as int).push(k));
                    if k2 != k {
                        assert(ids@.take(i + 1).contains(k2) <==> ids@.take(i as int).contains(k2)) by {
                            if ids@.take(i + 1).contains(k2) {
                                let j = choose|j: int| 0 <= j < i + 1 && #[trigger] ids@.take(i + 1)[j] == k2;
                                assert(ids@.take(i as int)[j] == k2);
                            }
                            if ids@.take(i as int).contains(k2) {
                                let j = choose|j: int| 0 <= j < i && #[trigger] ids@.take(i as int)[j] == k2;
                                assert(ids@.take(i + 1)[j] == k2);
                            }
                        }
                    } else {
                        assert(ids@.take(i + 1)[i as int] == k);
                    }
                }
                assert(self@.objects.dom() =~= objs.dom());
            }
            i = i + 1;
        }
        proof {
            assert(ids@.take(ids@.len() as int) == ids@);
            assert(self@.objects =~= resolved(old(self)@));
        }
        pairs
    }
}

/// Every object of a grid lies inside the world: wrapping keeps
/// `0 <= x < size_x` and `0 <= y < size_y` through any sequence of moves.
pub proof fn lemma_objects_in_world<T: Spatial2D>(g: &Grid<T>, k: u32)
    requires
        g.wf(),
        g@.objects.contains_key(k),
    ensures
        0 <= g@.objects[k].pos_x() < g@.size_x,
        0 <= g@.objects[k].pos_y() < g@.size_y,
        g@.objects[k].key() == k,
        placed(g@.objects[k], g@),
{
}

} // verus!

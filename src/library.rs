use vstd::prelude::*;

use crate::cell::{Cell, CellView};
use crate::geometry::{in_box, linear, linear_at, volume, Vec3i};

verus! {

/// Why a check-out or check-in was refused.
#[derive(Clone, Copy, PartialEq, Eq, Structural, Debug)]
pub enum LibraryError {
    /// A cell of the requested box is already checked out.
    AlreadyCheckedOut,
    /// The requested box starts at a negative coordinate.
    NegativeStart,
    /// A cell handed back lies outside the store.
    InvalidIndex,
    /// A cell handed back is stale: the stored version differs from its own.
    VersionMismatch,
    /// No fresh version number is left.
    VersionsExhausted,
}

/// A checked-out box of cells: `start <= p < end`, `size == end - start`, and `books`
/// in the store's order (`y`, then `x`, then `z`).
pub struct Range {
    pub size: Vec3i,
    pub start: Vec3i,
    pub end: Vec3i,
    pub books: Vec<Cell>,
}

pub struct RangeView {
    pub size: Vec3i,
    pub start: Vec3i,
    pub end: Vec3i,
    pub books: Seq<CellView>,
}

impl View for Range {
    type V = RangeView;

    open spec fn view(&self) -> RangeView {
        RangeView {
            size: self.size,
            start: self.start,
            end: self.end,
            books: self.books@.map_values(|c: Cell| c@),
        }
    }
}

/// The shared store of all cells of the map, in the order `y·X·Z + x·Z + z`.
pub struct Library3D {
    pub size: Vec3i,
    pub books: Vec<Cell>,
    pub next_version: u64,
}

pub struct LibraryView {
    pub size: Vec3i,
    pub books: Seq<CellView>,
    pub next_version: u64,
}

impl View for Library3D {
    type V = LibraryView;

    open spec fn view(&self) -> LibraryView {
        LibraryView {
            size: self.size,
            books: self.books@.map_values(|c: Cell| c@),
            next_version: self.next_version,
        }
    }
}

pub open spec fn origin() -> Vec3i {
    Vec3i { x: 0, y: 0, z: 0 }
}

/// Offset `(x, y, z)` of the `j`-th point of an extent in store order.
pub open spec fn offset_x(s: Vec3i, j: int) -> int {
    (j / s.z as int) % s.x as int
}

pub open spec fn offset_y(s: Vec3i, j: int) -> int {
    (j / s.z as int) / s.x as int
}

pub open spec fn offset_z(s: Vec3i, j: int) -> int {
    j % s.z as int
}

/// `books` is the box `start .. start + size`, one cell per point, in store order.
pub open spec fn box_wf(size: Vec3i, start: Vec3i, books: Seq<CellView>) -> bool {
    &&& 0 <= size.x
    &&& 0 <= size.y
    &&& 0 <= size.z
    &&& start.x + size.x <= i32::MAX
    &&& start.y + size.y <= i32::MAX
    &&& start.z + size.z <= i32::MAX
    &&& books.len() == volume(size)
    &&& forall|j: int|
        0 <= j < books.len() ==> {
            let p = #[trigger] books[j].position;
            &&& in_box(p, start, end_of(start, size))
            &&& linear_at(size, start, p) == j
        }
}

pub open spec fn end_of(start: Vec3i, size: Vec3i) -> Vec3i {
    Vec3i {
        x: (start.x + size.x) as i32,
        y: (start.y + size.y) as i32,
        z: (start.z + size.z) as i32,
    }
}

pub open spec fn range_wf(r: RangeView) -> bool {
    &&& box_wf(r.size, r.start, r.books)
    &&& r.end == end_of(r.start, r.size)
}

pub open spec fn library_wf(l: LibraryView) -> bool {
    &&& box_wf(l.size, origin(), l.books)
    &&& forall|i: int| 0 <= i < l.books.len() ==> (#[trigger] l.books[i]).version < l.next_version
}

/// Store index of position `p`.
pub open spec fn store_index(l: LibraryView, p: Vec3i) -> int {
    linear(l.size, p.x as int, p.y as int, p.z as int)
}

pub open spec fn min_i(a: int, b: int) -> int {
    if a < b {
        a
    } else {
        b
    }
}

pub open spec fn max_i(a: int, b: int) -> int {
    if a < b {
        b
    } else {
        a
    }
}

/// `end` clamped to the store's extent, and never below `start`.
pub open spec fn clamp_end(start: Vec3i, end: Vec3i, size: Vec3i) -> Vec3i {
    Vec3i {
        x: max_i(start.x as int, min_i(end.x as int, size.x as int)) as i32,
        y: max_i(start.y as int, min_i(end.y as int, size.y as int)) as i32,
        z: max_i(start.z as int, min_i(end.z as int, size.z as int)) as i32,
    }
}

pub open spec fn nonneg(p: Vec3i) -> bool {
    p.x >= 0 && p.y >= 0 && p.z >= 0
}

/// A check-out of `start .. end` from `l` is accepted.
pub open spec fn check_out_allowed(l: LibraryView, start: Vec3i, end: Vec3i) -> bool {
    &&& nonneg(start)
    &&& forall|i: int|
        0 <= i < l.books.len() && in_box(
            #[trigger] l.books[i].position,
            start,
            clamp_end(start, end, l.size),
        ) ==> !l.books[i].locked
}

/// `r` and `after` are what an accepted check-out of `start .. end` makes of `before`:
/// every cell of the box is marked checked out, and `r` holds copies of them.
pub open spec fn checked_out(
    before: LibraryView,
    start: Vec3i,
    end: Vec3i,
    r: RangeView,
    after: LibraryView,
) -> bool {
    &&& r.start == start
    &&& nonneg(start)
    &&& r.end == clamp_end(start, end, before.size)
    &&& range_wf(r)
    &&& after.size == before.size
    &&& after.next_version == before.next_version
    &&& after.books.len() == before.books.len()
    &&& forall|i: int|
        0 <= i < before.books.len() ==> #[trigger] after.books[i] == if in_box(
            before.books[i].position,
            r.start,
            r.end,
        ) {
            CellView { locked: true, ..before.books[i] }
        } else {
            before.books[i]
        }
    &&& forall|j: int|
        0 <= j < r.books.len() ==> #[trigger] r.books[j] == after.books[store_index(
            before,
            r.books[j].position,
        )]
}

/// A check-in of `r` into `l` is accepted: every cell lies in the store and carries the
/// version the store holds for its position, and a fresh version is left.
pub open spec fn check_in_allowed(l: LibraryView, r: RangeView) -> bool {
    &&& l.next_version < u64::MAX
    &&& forall|j: int|
        0 <= j < r.books.len() ==> {
            let p = #[trigger] r.books[j].position;
            &&& in_box(p, origin(), l.size)
            &&& l.books[store_index(l, p)].version == r.books[j].version
        }
}

/// `r_after` and `after` are what an accepted check-in of `r` makes of `before`: each cell
/// of `r` gets the fresh version, is marked checked in, and is written back.
pub open spec fn checked_in(
    before: LibraryView,
    r: RangeView,
    r_after: RangeView,
    after: LibraryView,
) -> bool {
    &&& after.size == before.size
    &&& after.next_version == before.next_version + 1
    &&& after.books.len() == before.books.len()
    &&& r_after.start == r.start && r_after.end == r.end && r_after.size == r.size
    &&& r_after.books.len() == r.books.len()
    &&& forall|j: int|
        0 <= j < r.books.len() ==> #[trigger] r_after.books[j] == CellView {
            version: before.next_version,
            locked: false,
            ..r.books[j]
        }
    &&& forall|i: int|
        0 <= i < before.books.len() ==> #[trigger] after.books[i] == if in_box(
            before.books[i].position,
            r.start,
            r.end,
        ) {
            r_after.books[linear_at(r.size, r.start, before.books[i].position)]
        } else {
            before.books[i]
        }
}

/// The store-order offsets of the `j`-th point of an extent lie in it and index back to `j`.
pub proof fn lemma_offset(s: Vec3i, j: int)
    requires
        0 < s.x,
        0 < s.y,
        0 < s.z,
        0 <= j < volume(s),
    ensures
        0 <= offset_x(s, j) < s.x,
        0 <= offset_y(s, j) < s.y,
        0 <= offset_z(s, j) < s.z,
        linear(s, offset_x(s, j), offset_y(s, j), offset_z(s, j)) == j,
{
    let z = s.z as int;
    let x = s.x as int;
    let y = s.y as int;
    let q = j / z;
    vstd::arithmetic::div_mod::lemma_fundamental_div_mod(j, z);
    vstd::arithmetic::div_mod::lemma_fundamental_div_mod(q, x);
    vstd::arithmetic::div_mod::lemma_mod_bound(j, z);
    vstd::arithmetic::div_mod::lemma_mod_bound(q, x);
    assert(0 <= q) by {
        vstd::arithmetic::div_mod::lemma_div_pos_is_pos(j, z);
    }
    assert(q < x * y) by (nonlinear_arith)
        requires
            j == z * q + j % z,
            0 <= j % z < z,
            j < x * y * z,
            0 < z,
    ;
    assert(q / x < y) by (nonlinear_arith)
        requires
            q == x * (q / x) + q % x,
            0 <= q % x < x,
            q < x * y,
            0 < x,
    ;
    assert(0 <= q / x) by {
        vstd::arithmetic::div_mod::lemma_div_pos_is_pos(q, x);
    }
    assert(linear(s, q % x, q / x, j % z) == j) by (nonlinear_arith)
        requires
            j == z * q + j % z,
            q == x * (q / x) + q % x,
            linear(s, q % x, q / x, j % z) == ((q / x) * x + q % x) * z + j % z,
    ;
}

proof fn lemma_volume_mono(a: Vec3i, b: Vec3i)
    requires
        0 <= a.x <= b.x,
        0 <= a.y <= b.y,
        0 <= a.z <= b.z,
    ensures
        volume(a) <= volume(b),
{
    if a.x > 0 && a.y > 0 && a.z > 0 {
        assert(a.x * a.y * a.z <= b.x * b.y * b.z) by (nonlinear_arith)
            requires
                0 < a.x <= b.x,
                0 < a.y <= b.y,
                0 < a.z <= b.z,
        ;
    }
}

/// The linear index of an offset inside an extent, computed without overflow.
fn linear_index(s: Vec3i, x: i32, y: i32, z: i32, bound: usize) -> (r: usize)
    requires
        0 <= x < s.x,
        0 <= y < s.y,
        0 <= z < s.z,
        volume(s) <= bound,
    ensures
        r as int == linear(s, x as int, y as int, z as int),
        r < volume(s),
{
    proof {
        crate::geometry::lemma_linear_bounds(s, x as int, y as int, z as int);
        assert(0 <= y * s.x + x < s.y * s.x) by (nonlinear_arith)
            requires
                0 <= x < s.x,
                0 <= y < s.y,
        ;
        assert(s.y * s.x <= volume(s)) by (nonlinear_arith)
            requires
                0 < s.x,
                0 < s.y,
                0 < s.z,
                volume(s) == s.x * s.y * s.z,
        ;
        assert(0 <= y * s.x <= y * s.x + x);
        assert((y * s.x + x) * s.z <= linear(s, x as int, y as int, z as int));
    }
    let a = (y as usize) * (s.x as usize);
    let b = a + x as usize;
    let c = b * (s.z as usize);
    c + z as usize
}

/// The `j`-th point of the box `start .. start + s` in store order.
pub open spec fn point_at(start: Vec3i, s: Vec3i, j: int) -> Vec3i {
    Vec3i {
        x: (start.x + offset_x(s, j)) as i32,
        y: (start.y + offset_y(s, j)) as i32,
        z: (start.z + offset_z(s, j)) as i32,
    }
}

pub proof fn lemma_point_at(start: Vec3i, s: Vec3i, j: int)
    requires
        0 <= s.x,
        0 <= s.y,
        0 <= s.z,
        start.x + s.x <= i32::MAX,
        start.y + s.y <= i32::MAX,
        start.z + s.z <= i32::MAX,
        0 <= j < volume(s),
    ensures
        in_box(point_at(start, s, j), start, end_of(start, s)),
        linear_at(s, start, point_at(start, s, j)) == j,
{
    lemma_offset(s, j);
}

/// In a well-formed box, the cell at the linear index of `p` is the one at `p`.
pub proof fn lemma_box_position(size: Vec3i, start: Vec3i, books: Seq<CellView>, p: Vec3i)
    requires
        box_wf(size, start, books),
        in_box(p, start, end_of(start, size)),
    ensures
        0 <= linear_at(size, start, p) < books.len(),
        books[linear_at(size, start, p)].position == p,
{
    let x = p.x - start.x;
    let y = p.y - start.y;
    let z = p.z - start.z;
    crate::geometry::lemma_linear_bounds(size, x, y, z);
    let i = linear_at(size, start, p);
    let q = books[i].position;
    crate::geometry::lemma_linear_injective(
        size,
        x,
        y,
        z,
        q.x - start.x,
        q.y - start.y,
        q.z - start.z,
    );
}

/// Two cells of a well-formed box at one position are one cell.
proof fn lemma_box_unique(size: Vec3i, start: Vec3i, books: Seq<CellView>, i: int, k: int)
    requires
        box_wf(size, start, books),
        0 <= i < books.len(),
        0 <= k < books.len(),
        books[i].position == books[k].position,
    ensures
        i == k,
{
    let p = books[i].position;
    assert(linear_at(size, start, p) == i);
    assert(linear_at(size, start, books[k].position) == k);
}

impl Range {
    pub fn new(start: Vec3i, end: Vec3i, books: Vec<Cell>) -> (r: Range)
        requires
            start.x <= end.x,
            start.y <= end.y,
            start.z <= end.z,
            end.x - start.x <= i32::MAX,
            end.y - start.y <= i32::MAX,
            end.z - start.z <= i32::MAX,
        ensures
            r.start == start,
            r.end == end,
            r.size == (Vec3i {
                x: (end.x - start.x) as i32,
                y: (end.y - start.y) as i32,
                z: (end.z - start.z) as i32,
            }),
            r.books == books,
    {
        let size = Vec3i { x: end.x - start.x, y: end.y - start.y, z: end.z - start.z };
        Range { size, start, end, books }
    }

    /// Position in `books` of a position of the box.
    pub fn index(&self, location: Vec3i) -> (r: usize)
        requires
            range_wf(self@),
            in_box(location, self.start, self.end),
        ensures
            r as int == linear_at(self.size, self.start, location),
            r < self.books@.len(),
            self.books@[r as int].position == location,
    {
        let x = location.x - self.start.x;
        let y = location.y - self.start.y;
        let z = location.z - self.start.z;
        let r = linear_index(self.size, x, y, z, self.books.len());
        proof {
            lemma_box_position(self.size, self.start, self@.books, location);
            assert(self@.books[r as int].position == self.books@[r as int].position);
        }
        r
    }

    /// True iff `position` lies in the box (the end faces are excluded).
    pub fn contains(&self, position: Vec3i) -> (r: bool)
        ensures
            r == in_box(position, self.start, self.end),
    {
        position.x >= self.start.x && position.x < self.end.x && position.y >= self.start.y
            && position.y < self.end.y && position.z >= self.start.z && position.z < self.end.z
    }

    /// The axis neighbours of `position` that lie in the box, in the order +y, -y, +x, -x,
    /// -z, +z.
    pub fn get_neighbors(&self, position: Vec3i) -> (r: Vec<Vec3i>)
        ensures
            r@.len() <= 6,
            r@.no_duplicates(),
            forall|j: int|
                0 <= j < r@.len() ==> crate::geometry::adjacent(position, #[trigger] r@[j])
                    && in_box(r@[j], self.start, self.end),
            forall|q: Vec3i|
                crate::geometry::adjacent(position, q) && in_box(q, self.start, self.end)
                    ==> #[trigger] r@.contains(q),
    {
        neighbors_in_box(self.start, self.end, position)
    }
}

/// The store coordinates of the `j`-th point of the box `start .. start + s`.
fn point_of(start: Vec3i, s: Vec3i, j: usize) -> (p: Vec3i)
    requires
        0 <= s.x,
        0 <= s.y,
        0 <= s.z,
        start.x + s.x <= i32::MAX,
        start.y + s.y <= i32::MAX,
        start.z + s.z <= i32::MAX,
        j < volume(s),
    ensures
        p == point_at(start, s, j as int),
        in_box(p, start, end_of(start, s)),
        linear_at(s, start, p) == j,
{
    proof {
        lemma_point_at(start, s, j as int);
        lemma_offset(s, j as int);
    }
    let q = j / (s.z as usize);
    let x = q % (s.x as usize);
    let y = q / (s.x as usize);
    let z = j % (s.z as usize);
    assert(x as int == offset_x(s, j as int));
    assert(y as int == offset_y(s, j as int));
    assert(z as int == offset_z(s, j as int));
    Vec3i { x: start.x + x as i32, y: start.y + y as i32, z: start.z + z as i32 }
}

/// Number of points of an extent with non-negative axes that fits in `bound`.
fn volume_of(s: Vec3i, bound: usize) -> (r: usize)
    requires
        0 <= s.x,
        0 <= s.y,
        0 <= s.z,
        s.x * s.y * s.z <= bound,
    ensures
        r == volume(s),
{
    if s.x == 0 || s.y == 0 || s.z == 0 {
        return 0;
    }
    proof {
        assert(s.x * s.y <= s.x * s.y * s.z) by (nonlinear_arith)
            requires
                0 < s.x,
                0 < s.y,
                0 < s.z,
        ;
    }
    let a = (s.x as usize) * (s.y as usize);
    a * (s.z as usize)
}

impl Library3D {
    /// A store over `books`, which must hold one cell per point of `size` in store order.
    pub fn new(size: Vec3i, books: Vec<Cell>) -> (r: Library3D)
        requires
            box_wf(size, origin(), books@.map_values(|c: Cell| c@)),
            forall|i: int| 0 <= i < books@.len() ==> (#[trigger] books@[i]).version < u64::MAX,
        ensures
            library_wf(r@),
            r.size == size,
            r@.books == books@.map_values(|c: Cell| c@),
    {
        let mut next: u64 = 0;
        let mut i: usize = 0;
        while i < books.len()
            invariant
                i <= books@.len(),
                forall|k: int| 0 <= k < books@.len() ==> (#[trigger] books@[k]).version < u64::MAX,
                forall|k: int| 0 <= k < i ==> (#[trigger] books@[k]).version < next,
            decreases books@.len() - i,
        {
            if books[i].version >= next {
                next = books[i].version + 1;
            }
            i = i + 1;
        }
        Library3D { size, books, next_version: next }
    }

    /// The stored cell at `position`, if the position lies in the store.
    pub fn get_cell(&self, position: Vec3i) -> (r: Option<&Cell>)
        requires
            library_wf(self@),
        ensures
            r.is_some() <==> in_box(position, origin(), self.size),
            r.is_some() ==> r.unwrap()@ == self@.books[store_index(self@, position)] && r.unwrap().position == position,
    {
        if position.x < 0 || position.y < 0 || position.z < 0 || position.x >= self.size.x
            || position.y >= self.size.y || position.z >= self.size.z {
            return None;
        }
        proof {
            assert(end_of(origin(), self.size) == self.size);
            lemma_box_position(self.size, origin(), self@.books, position);
        }
        let i = linear_index(self.size, position.x, position.y, position.z, self.books.len());
        assert(self@.books[i as int] == self.books@[i as int]@);
        Some(&self.books[i])
    }

    /// Checks out the cells of `start .. end` (`end` clamped to the store), all or none.
    /// Refused when `start` is negative on an axis, or when a cell of the box is already
    /// checked out; the store is then unchanged.
    pub fn check_out_range(&mut self, start: Vec3i, end: Vec3i) -> (res: Result<Range, LibraryError>)
        requires
            library_wf(old(self)@),
        ensures
            library_wf(final(self)@),
            res.is_ok() <==> check_out_allowed(old(self)@, start, end),
            res.is_ok() ==> checked_out(old(self)@, start, end, res.unwrap()@, final(self)@),
            res.is_err() ==> final(self)@ == old(self)@,
            res == Err::<Range, LibraryError>(LibraryError::NegativeStart) <==> !nonneg(start),
    {
        let ghost l0 = self@;
        if start.x < 0 || start.y < 0 || start.z < 0 {
            return Err(LibraryError::NegativeStart);
        }
        let rend = Vec3i {
            x: if end.x < self.size.x { if end.x < start.x { start.x } else { end.x } } else { if self.size.x < start.x { start.x } else { self.size.x } },
            y: if end.y < self.size.y { if end.y < start.y { start.y } else { end.y } } else { if self.size.y < start.y { start.y } else { self.size.y } },
            z: if end.z < self.size.z { if end.z < start.z { start.z } else { end.z } } else { if self.size.z < start.z { start.z } else { self.size.z } },
        };
        assert(rend == clamp_end(start, end, l0.size));
        let rsize = Vec3i { x: rend.x - start.x, y: rend.y - start.y, z: rend.z - start.z };
        assert(end_of(start, rsize) == rend);
        let ghost inb = |p: Vec3i| in_box(p, start, rend);
        proof {
            let small = Vec3i { x: rsize.x, y: rsize.y, z: rsize.z };
            if rsize.x > 0 && rsize.y > 0 && rsize.z > 0 {
                lemma_volume_mono(rsize, self.size);
                assert(rsize.x * rsize.y * rsize.z == volume(rsize));
            } else {
                assert(rsize.x * rsize.y * rsize.z == 0) by (nonlinear_arith)
                    requires
                        rsize.x == 0 || rsize.y == 0 || rsize.z == 0,
                ;
            }
        }
        let n = volume_of(rsize, self.books.len());
        // Pass 1: refuse before touching anything if a cell is already out.
        let mut j: usize = 0;
        while j < n
            invariant
                self@ == l0,
                library_wf(l0),
                n == volume(rsize),
                nonneg(start),
                rend == clamp_end(start, end, l0.size),
                rend == end_of(start, rsize),
                start.x + rsize.x == rend.x,
                start.y + rsize.y == rend.y,
                start.z + rsize.z == rend.z,
                n > 0 ==> (rend.x <= l0.size.x && rend.y <= l0.size.y && rend.z <= l0.size.z),
                0 <= rsize.x <= l0.size.x,
                0 <= rsize.y <= l0.size.y,
                0 <= rsize.z <= l0.size.z,
                j <= n,
                forall|i: int|
                    0 <= i < l0.books.len() && in_box(#[trigger] l0.books[i].position, start, rend)
                        && linear_at(rsize, start, l0.books[i].position) < j ==> !l0.books[i].locked,
            decreases n - j,
        {
            let p = point_of(start, rsize, j);
            let idx = linear_index(self.size, p.x, p.y, p.z, self.books.len());
            proof {
                lemma_box_position(l0.size, origin(), l0.books, p);
                assert(self.books@[idx as int]@ == l0.books[idx as int]);
            }
            if self.books[idx].locked {
                proof {
                    assert(!check_out_allowed(l0, start, end)) by {
                        assert(in_box(l0.books[idx as int].position, start, rend));
                    }
                }
                return Err(LibraryError::AlreadyCheckedOut);
            }
            proof {
                assert forall|i: int|
                    0 <= i < l0.books.len() && in_box(#[trigger] l0.books[i].position, start, rend)
                        && linear_at(rsize, start, l0.books[i].position) < j + 1 implies !l0.books[i].locked by {
                    if linear_at(rsize, start, l0.books[i].position) == j {
                        let q = l0.books[i].position;
                        crate::geometry::lemma_linear_injective(
                            rsize,
                            q.x - start.x,
                            q.y - start.y,
                            q.z - start.z,
                            p.x - start.x,
                            p.y - start.y,
                            p.z - start.z,
                        );
                        lemma_box_unique(l0.size, origin(), l0.books, i, idx as int);
                    }
                }
            }
            j = j + 1;
        }
        proof {
            assert forall|i: int|
                0 <= i < l0.books.len() && in_box(#[trigger] l0.books[i].position, start, rend)
                    implies !l0.books[i].locked by {
                let q = l0.books[i].position;
                crate::geometry::lemma_linear_bounds(rsize, q.x - start.x, q.y - start.y, q.z - start.z);
            }
        }
        // Pass 2: mark and copy.
        let mut books: Vec<Cell> = Vec::new();
        let mut j: usize = 0;
        while j < n
            invariant
                library_wf(l0),
                self.size == l0.size,
                self.next_version == l0.next_version,
                self.books@.len() == l0.books.len(),
                n == volume(rsize),
                nonneg(start),
                rend == end_of(start, rsize),
                start.x + rsize.x == rend.x,
                start.y + rsize.y == rend.y,
                start.z + rsize.z == rend.z,
                n > 0 ==> (rend.x <= l0.size.x && rend.y <= l0.size.y && rend.z <= l0.size.z),
                0 <= rsize.x <= l0.size.x,
                0 <= rsize.y <= l0.size.y,
                0 <= rsize.z <= l0.size.z,
                j <= n,
                books@.len() == j,
                forall|i: int|
                    0 <= i < l0.books.len() && in_box(#[trigger] l0.books[i].position, start, rend)
                        ==> !l0.books[i].locked,
                forall|i: int|
                    0 <= i < l0.books.len() ==> #[trigger] self.books@[i]@ == if in_box(
                        l0.books[i].position,
                        start,
                        rend,
                    ) && linear_at(rsize, start, l0.books[i].position) < j {
                        CellView { locked: true, ..l0.books[i] }
                    } else {
                        l0.books[i]
                    },
                forall|k: int|
                    0 <= k < j ==> (#[trigger] books@[k])@.position == point_at(start, rsize, k)
                        && books@[k]@ == (CellView { locked: true, ..l0.books[store_index(l0, point_at(start, rsize, k))] }),
            decreases n - j,
        {
            let p = point_of(start, rsize, j);
            let idx = linear_index(self.size, p.x, p.y, p.z, self.books.len());
            proof {
                lemma_box_position(l0.size, origin(), l0.books, p);
                assert(linear_at(rsize, start, l0.books[idx as int].position) == j);
            }
            let mut cell = self.books[idx].duplicate();
            cell.check_out();
            books.push(cell.duplicate());
            self.books.set(idx, cell);
            proof {
                assert forall|i: int|
                    0 <= i < l0.books.len() implies #[trigger] self.books@[i]@ == if in_box(
                        l0.books[i].position,
                        start,
                        rend,
                    ) && linear_at(rsize, start, l0.books[i].position) < j + 1 {
                        CellView { locked: true, ..l0.books[i] }
                    } else {
                        l0.books[i]
                    } by {
                    if i != idx && in_box(l0.books[i].position, start, rend) && linear_at(rsize, start, l0.books[i].position) == j {
                        let q = l0.books[i].position;
                        crate::geometry::lemma_linear_injective(
                            rsize,
                            q.x - start.x,
                            q.y - start.y,
                            q.z - start.z,
                            p.x - start.x,
                            p.y - start.y,
                            p.z - start.z,
                        );
                        lemma_box_unique(l0.size, origin(), l0.books, i, idx as int);
                    }
                }
            }
            j = j + 1;
        }
        let r = Range { size: rsize, start, end: rend, books };
        proof {
            assert forall|i: int|
                0 <= i < l0.books.len() implies #[trigger] self.books@[i]@ == if in_box(
                    l0.books[i].position,
                    start,
                    rend,
                ) {
                    CellView { locked: true, ..l0.books[i] }
                } else {
                    l0.books[i]
                } by {
                if in_box(l0.books[i].position, start, rend) {
                    let q = l0.books[i].position;
                    crate::geometry::lemma_linear_bounds(rsize, q.x - start.x, q.y - start.y, q.z - start.z);
                }
            }
            assert forall|k: int| 0 <= k < r@.books.len() implies {
                let p = #[trigger] r@.books[k].position;
                &&& in_box(p, start, end_of(start, rsize))
                &&& linear_at(rsize, start, p) == k
            } by {
                lemma_point_at(start, rsize, k);
            }
            assert forall|k: int|
                0 <= k < r@.books.len() implies #[trigger] r@.books[k] == self@.books[store_index(
                    l0,
                    r@.books[k].position,
                )] by {
                let p = point_at(start, rsize, k);
                lemma_point_at(start, rsize, k);
                lemma_box_position(l0.size, origin(), l0.books, p);
            }
            assert forall|i: int| 0 <= i < self@.books.len() implies (#[trigger] self@.books[i]).version
                < self@.next_version by {
                assert(l0.books[i].version < l0.next_version);
            }
            assert forall|i: int| 0 <= i < self@.books.len() implies {
                let p = #[trigger] self@.books[i].position;
                &&& in_box(p, origin(), end_of(origin(), self.size))
                &&& linear_at(self.size, origin(), p) == i
            } by {
                assert(self@.books[i].position == l0.books[i].position);
            }
        }
        Ok(r)
    }

    /// Writes the cells of `range` back. Pass one refuses, with nothing written, when a
    /// cell lies outside the store or its version differs from the stored one (or no fresh
    /// version is left). Pass two stamps every cell with one fresh version, marks it
    /// checked in, and stores it.
    pub fn check_in_range(&mut self, range: &mut Range) -> (res: Result<(), LibraryError>)
        requires
            library_wf(old(self)@),
            range_wf(old(range)@),
        ensures
            library_wf(final(self)@),
            res.is_ok() <==> check_in_allowed(old(self)@, old(range)@),
            res.is_ok() ==> checked_in(old(self)@, old(range)@, final(range)@, final(self)@),
            res.is_err() ==> final(self)@ == old(self)@ && final(range)@ == old(range)@,
            res == Err::<(), LibraryError>(LibraryError::VersionsExhausted) <==> old(
                self,
            ).next_version == u64::MAX,
    {
        let ghost l0 = self@;
        let ghost r0 = range@;
        if self.next_version == u64::MAX {
            return Err(LibraryError::VersionsExhausted);
        }
        let n = range.books.len();
        let mut j: usize = 0;
        while j < n
            invariant
                self@ == l0,
                range@ == r0,
                library_wf(l0),
                range_wf(r0),
                n == r0.books.len(),
                l0.next_version < u64::MAX,
                j <= n,
                forall|k: int|
                    0 <= k < j ==> {
                        let p = #[trigger] r0.books[k].position;
                        &&& in_box(p, origin(), l0.size)
                        &&& l0.books[store_index(l0, p)].version == r0.books[k].version
                    },
            decreases n - j,
        {
            let p = range.books[j].position;
            assert(p == r0.books[j as int].position);
            if !(p.x >= 0 && p.x < self.size.x && p.y >= 0 && p.y < self.size.y && p.z >= 0 && p.z
                < self.size.z) {
                return Err(LibraryError::InvalidIndex);
            }
            proof {
                assert(end_of(origin(), l0.size) == l0.size);
                lemma_box_position(l0.size, origin(), l0.books, p);
            }
            let idx = linear_index(self.size, p.x, p.y, p.z, self.books.len());
            assert(self.books@[idx as int]@ == l0.books[idx as int]);
            if self.books[idx].version != range.books[j].version {
                return Err(LibraryError::VersionMismatch);
            }
            j = j + 1;
        }
        let v = self.next_version;
        let mut j: usize = 0;
        while j < n
            invariant
                library_wf(l0),
                range_wf(r0),
                n == r0.books.len(),
                v == l0.next_version,
                v < u64::MAX,
                self.size == l0.size,
                self.next_version == v,
                self.books@.len() == l0.books.len(),
                range.start == r0.start,
                range.end == r0.end,
                range.size == r0.size,
                range.books@.len() == n,
                j <= n,
                check_in_allowed(l0, r0),
                forall|k: int|
                    0 <= k < n ==> #[trigger] range.books@[k]@ == if k < j {
                        CellView { version: v, locked: false, ..r0.books[k] }
                    } else {
                        r0.books[k]
                    },
                forall|i: int|
                    0 <= i < l0.books.len() ==> #[trigger] self.books@[i]@ == if in_box(
                        l0.books[i].position,
                        r0.start,
                        r0.end,
                    ) && linear_at(r0.size, r0.start, l0.books[i].position) < j {
                        CellView {
                            version: v,
                            locked: false,
                            ..r0.books[linear_at(r0.size, r0.start, l0.books[i].position)]
                        }
                    } else {
                        l0.books[i]
                    },
            decreases n - j,
        {
            assert(range.books@[j as int]@ == r0.books[j as int]);
            let p = range.books[j].position;
            assert(p == r0.books[j as int].position);
            assert(in_box(p, origin(), l0.size));
            proof {
                assert(end_of(origin(), l0.size) == l0.size);
                lemma_box_position(l0.size, origin(), l0.books, p);
            }
            let idx = linear_index(self.size, p.x, p.y, p.z, self.books.len());
            let mut c = range.books[j].duplicate();
            c.set_version(v);
            c.check_in();
            range.books.set(j, c.duplicate());
            self.books.set(idx, c);
            proof {
                assert forall|i: int|
                    0 <= i < l0.books.len() implies #[trigger] self.books@[i]@ == if in_box(
                        l0.books[i].position,
                        r0.start,
                        r0.end,
                    ) && linear_at(r0.size, r0.start, l0.books[i].position) < j + 1 {
                        CellView {
                            version: v,
                            locked: false,
                            ..r0.books[linear_at(r0.size, r0.start, l0.books[i].position)]
                        }
                    } else {
                        l0.books[i]
                    } by {
                    let q = l0.books[i].position;
                    if i == idx {
                        assert(q == p);
                        assert(linear_at(r0.size, r0.start, p) == j);
                    } else if in_box(q, r0.start, r0.end) && linear_at(r0.size, r0.start, q) == j {
                        crate::geometry::lemma_linear_injective(
                            r0.size,
                            q.x - r0.start.x,
                            q.y - r0.start.y,
                            q.z - r0.start.z,
                            p.x - r0.start.x,
                            p.y - r0.start.y,
                            p.z - r0.start.z,
                        );
                        lemma_box_unique(l0.size, origin(), l0.books, i, idx as int);
                    }
                }
            }
            j = j + 1;
        }
        self.next_version = v + 1;
        proof {
            assert forall|i: int| 0 <= i < l0.books.len() implies #[trigger] self@.books[i] == if in_box(
                l0.books[i].position,
                r0.start,
                r0.end,
            ) {
                range@.books[linear_at(r0.size, r0.start, l0.books[i].position)]
            } else {
                l0.books[i]
            } by {
                let q = l0.books[i].position;
                if in_box(q, r0.start, r0.end) {
                    lemma_box_position(r0.size, r0.start, r0.books, q);
                }
            }
            assert forall|i: int| 0 <= i < self@.books.len() implies {
                let p = #[trigger] self@.books[i].position;
                &&& in_box(p, origin(), end_of(origin(), self.size))
                &&& linear_at(self.size, origin(), p) == i
            } by {
                let q = l0.books[i].position;
                if in_box(q, r0.start, r0.end) {
                    lemma_box_position(r0.size, r0.start, r0.books, q);
                }
                assert(self@.books[i].position == q);
            }
            assert forall|i: int| 0 <= i < self@.books.len() implies (#[trigger] self@.books[i]).version
                < self@.next_version by {
                assert(l0.books[i].version < l0.next_version);
            }
            assert forall|k: int| 0 <= k < r0.books.len() implies #[trigger] range@.books[k] == (CellView {
                version: v,
                locked: false,
                ..r0.books[k]
            }) by {
                assert(range@.books[k] == range.books@[k]@);
            }
        }
        Ok(())
    }
}

/// The axis neighbours of `p` inside `start .. end`, in the order +y, -y, +x, -x, -z, +z.
/// Offset along each axis of the `k`-th direction (+y, -y, +x, -x, -z, +z).
pub open spec fn dir_dx(k: int) -> int {
    if k == 2 { 1 } else if k == 3 { -1 } else { 0 }
}

pub open spec fn dir_dy(k: int) -> int {
    if k == 0 { 1 } else if k == 1 { -1 } else { 0 }
}

pub open spec fn dir_dz(k: int) -> int {
    if k == 4 { -1 } else if k == 5 { 1 } else { 0 }
}

/// `r[j]` is `p` moved in direction `ks[j]`, and the directions strictly increase.
pub open spec fn dirs_ok(p: Vec3i, r: Seq<Vec3i>, ks: Seq<int>) -> bool {
    &&& r.len() == ks.len()
    &&& forall|j: int| 0 <= j < r.len() ==> 0 <= #[trigger] ks[j] < 6 && r[j].x == p.x + dir_dx(ks[j]) && r[j].y == p.y + dir_dy(ks[j])
        && r[j].z == p.z + dir_dz(ks[j])
    &&& forall|a: int, b: int| 0 <= a < b < ks.len() ==> ks[a] < ks[b]
}

proof fn lemma_dirs_push(p: Vec3i, r: Seq<Vec3i>, ks: Seq<int>, q: Vec3i, k: int)
    requires
        dirs_ok(p, r, ks),
        0 <= k < 6,
        ks.len() == 0 || ks.last() < k,
        q.x == p.x + dir_dx(k) && q.y == p.y + dir_dy(k) && q.z == p.z + dir_dz(k),
    ensures
        dirs_ok(p, r.push(q), ks.push(k)),
{
    assert forall|j: int| 0 <= j < ks.len() implies ks[j] < k by {
        if j < ks.len() - 1 {
            assert(ks[j] < ks[ks.len() - 1]);
        }
    }
}

proof fn lemma_dirs_distinct(p: Vec3i, r: Seq<Vec3i>, ks: Seq<int>)
    requires
        dirs_ok(p, r, ks),
    ensures
        r.no_duplicates(),
{
    assert forall|a: int, b: int| 0 <= a < r.len() && 0 <= b < r.len() && a != b implies r[a] != r[b] by {
        if a < b {
            assert(ks[a] < ks[b]);
        } else {
            assert(ks[b] < ks[a]);
        }
    }
}

#[verifier::rlimit(60)]
pub fn neighbors_in_box(start: Vec3i, end: Vec3i, p: Vec3i) -> (r: Vec<Vec3i>)
    ensures
        r@.len() <= 6,
        r@.no_duplicates(),
        forall|j: int|
            0 <= j < r@.len() ==> crate::geometry::adjacent(p, #[trigger] r@[j]) && in_box(
                r@[j],
                start,
                end,
            ),
        forall|q: Vec3i|
            crate::geometry::adjacent(p, q) && in_box(q, start, end) ==> #[trigger] r@.contains(q),
{
    let mut r: Vec<Vec3i> = Vec::new();
    let x = p.x as i64;
    let y = p.y as i64;
    let z = p.z as i64;
    let inside = |a: i64, b: i64, c: i64| -> (res: bool)
        ensures
            res == (start.x <= a < end.x && start.y <= b < end.y && start.z <= c < end.z),
        { start.x as i64 <= a && a < end.x as i64 && start.y as i64 <= b && b < end.y as i64 && start.z as i64 <= c && c < end.z as i64 };
    let ghost mut w: Seq<int> = seq![-1, -1, -1, -1, -1, -1];
    let ghost mut ks: Seq<int> = Seq::empty();
    if inside(x, y + 1, z) {
        r.push(Vec3i { x: p.x, y: (y + 1) as i32, z: p.z });
        proof { lemma_dirs_push(p, r@.drop_last(), ks, r@.last(), 0); assert(r@.drop_last().push(r@.last()) == r@); w = w.update(0, r@.len() - 1); ks = ks.push(0); }
    }
    if inside(x, y - 1, z) {
        r.push(Vec3i { x: p.x, y: (y - 1) as i32, z: p.z });
        proof { lemma_dirs_push(p, r@.drop_last(), ks, r@.last(), 1); assert(r@.drop_last().push(r@.last()) == r@); w = w.update(1, r@.len() - 1); ks = ks.push(1); }
    }
    if inside(x + 1, y, z) {
        r.push(Vec3i { x: (x + 1) as i32, y: p.y, z: p.z });
        proof { lemma_dirs_push(p, r@.drop_last(), ks, r@.last(), 2); assert(r@.drop_last().push(r@.last()) == r@); w = w.update(2, r@.len() - 1); ks = ks.push(2); }
    }
    if inside(x - 1, y, z) {
        r.push(Vec3i { x: (x - 1) as i32, y: p.y, z: p.z });
        proof { lemma_dirs_push(p, r@.drop_last(), ks, r@.last(), 3); assert(r@.drop_last().push(r@.last()) == r@); w = w.update(3, r@.len() - 1); ks = ks.push(3); }
    }
    if inside(x, y, z - 1) {
        r.push(Vec3i { x: p.x, y: p.y, z: (z - 1) as i32 });
        proof { lemma_dirs_push(p, r@.drop_last(), ks, r@.last(), 4); assert(r@.drop_last().push(r@.last()) == r@); w = w.update(4, r@.len() - 1); ks = ks.push(4); }
    }
    if inside(x, y, z + 1) {
        r.push(Vec3i { x: p.x, y: p.y, z: (z + 1) as i32 });
        proof { lemma_dirs_push(p, r@.drop_last(), ks, r@.last(), 5); assert(r@.drop_last().push(r@.last()) == r@); w = w.update(5, r@.len() - 1); ks = ks.push(5); }
    }
    proof {
        lemma_dirs_distinct(p, r@, ks);
        assert forall|q: Vec3i|
            crate::geometry::adjacent(p, q) && in_box(q, start, end) implies #[trigger] r@.contains(
            q,
        ) by {
            if q.y == p.y + 1 {
                assert(r@[w[0]] == q);
            } else if q.y == p.y - 1 {
                assert(r@[w[1]] == q);
            } else if q.x == p.x + 1 {
                assert(r@[w[2]] == q);
            } else if q.x == p.x - 1 {
                assert(r@[w[3]] == q);
            } else if q.z == p.z - 1 {
                assert(r@[w[4]] == q);
            } else {
                assert(r@[w[5]] == q);
            }
        }
    }
    r
}

/// Cells held by two ranges that were checked out one after the other (with no check-in
/// between) never coincide: the ranges in flight are disjoint.
pub proof fn lemma_check_outs_disjoint(
    l0: LibraryView,
    s1: Vec3i,
    e1: Vec3i,
    r1: RangeView,
    l1: LibraryView,
    s2: Vec3i,
    e2: Vec3i,
    r2: RangeView,
    l2: LibraryView,
)
    requires
        library_wf(l0),
        checked_out(l0, s1, e1, r1, l1),
        check_out_allowed(l1, s2, e2),
        checked_out(l1, s2, e2, r2, l2),
    ensures
        forall|i: int|
            0 <= i < l0.books.len() ==> !(in_box(#[trigger] l0.books[i].position, r1.start, r1.end)
                && in_box(l0.books[i].position, r2.start, r2.end)),
        forall|i: int|
            0 <= i < l2.books.len() && (in_box(#[trigger] l2.books[i].position, r1.start, r1.end)
                || in_box(l2.books[i].position, r2.start, r2.end)) ==> l2.books[i].locked,
{
    assert forall|i: int|
        0 <= i < l0.books.len() implies !(in_box(#[trigger] l0.books[i].position, r1.start, r1.end)
        && in_box(l0.books[i].position, r2.start, r2.end)) by {
        if in_box(l0.books[i].position, r1.start, r1.end) {
            assert(l1.books[i].locked);
            assert(l1.books[i].position == l0.books[i].position);
        }
    }
    assert forall|i: int|
        0 <= i < l2.books.len() && (in_box(#[trigger] l2.books[i].position, r1.start, r1.end)
            || in_box(l2.books[i].position, r2.start, r2.end)) implies l2.books[i].locked by {
        assert(l1.books[i].position == l0.books[i].position);
        assert(l2.books[i].position == l1.books[i].position);
    }
}

/// Checking a range out and handing it straight back is accepted (while a fresh version is
/// left), and every cell of the range then carries a version above the one it had.
pub proof fn lemma_check_out_in_round_trip(
    l0: LibraryView,
    start: Vec3i,
    end: Vec3i,
    r: RangeView,
    l1: LibraryView,
    r_after: RangeView,
    l2: LibraryView,
)
    requires
        library_wf(l0),
        checked_out(l0, start, end, r, l1),
        l1.next_version < u64::MAX,
    ensures
        check_in_allowed(l1, r),
        checked_in(l1, r, r_after, l2) ==> forall|i: int|
            0 <= i < l0.books.len() && in_box(#[trigger] l0.books[i].position, r.start, r.end)
                ==> l2.books[i].version > l0.books[i].version && !l2.books[i].locked,
{
    assert forall|j: int| 0 <= j < r.books.len() implies {
        let p = #[trigger] r.books[j].position;
        &&& in_box(p, origin(), l1.size)
        &&& l1.books[store_index(l1, p)].version == r.books[j].version
    } by {
        let p = r.books[j].position;
        assert(in_box(p, r.start, r.end));
        assert(r.books[j] == l1.books[store_index(l0, p)]);
    }
    if checked_in(l1, r, r_after, l2) {
        assert forall|i: int|
            0 <= i < l0.books.len() && in_box(#[trigger] l0.books[i].position, r.start, r.end)
                implies l2.books[i].version > l0.books[i].version && !l2.books[i].locked by {
            let q = l0.books[i].position;
            assert(l1.books[i].position == q);
            lemma_box_position(r.size, r.start, r.books, q);
        }
    }
}

} // verus!

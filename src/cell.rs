use vstd::prelude::*;

use crate::geometry::Vec3i;
use crate::prototype::{compatible_any, indices_valid, Prototype};
use crate::random::draw_below;

verus! {

/// One lattice position and the catalogue entries still possible there.
///
/// `possibilities` holds indices into the prototype catalogue. `version` and `locked`
/// are the book-keeping of the cell store: the version it was last checked in with, and
/// whether it is currently checked out.
#[derive(Clone, Debug)]
pub struct Cell {
    pub position: Vec3i,
    pub possibilities: Vec<usize>,
    pub version: u64,
    pub locked: bool,
}

/// The mathematical content of a cell.
pub struct CellView {
    pub position: Vec3i,
    pub possibilities: Seq<usize>,
    pub version: u64,
    pub locked: bool,
}

impl View for Cell {
    type V = CellView;

    open spec fn view(&self) -> CellView {
        CellView {
            position: self.position,
            possibilities: self.possibilities@,
            version: self.version,
            locked: self.locked,
        }
    }
}

/// The direction from `from` to `to`; the zero vector (no axis direction) when a component
/// does not fit in `i32`.
pub open spec fn direction_between(from: Vec3i, to: Vec3i) -> Vec3i {
    let dx = to.x - from.x;
    let dy = to.y - from.y;
    let dz = to.z - from.z;
    if i32::MIN <= dx <= i32::MAX && i32::MIN <= dy <= i32::MAX && i32::MIN <= dz <= i32::MAX {
        Vec3i { x: dx as i32, y: dy as i32, z: dz as i32 }
    } else {
        Vec3i { x: 0, y: 0, z: 0 }
    }
}

/// Catalogue entry `i` accepts some entry of `others` in direction `d`.
pub open spec fn supported_by(protos: Seq<Prototype>, others: Seq<usize>, d: Vec3i) -> spec_fn(
    usize,
) -> bool {
    |i: usize| 0 <= i < protos.len() && compatible_any(protos, protos[i as int], others, d)
}

/// What the possibilities of `cell` become under the constraint of its neighbour `source`.
pub open spec fn constrained_by(protos: Seq<Prototype>, cell: CellView, source: CellView) -> Seq<
    usize,
> {
    cell.possibilities.filter(
        supported_by(protos, source.possibilities, direction_between(cell.position, source.position)),
    )
}

/// Sum of the weights of the first `n` entries of `list`.
pub open spec fn prefix_weight(protos: Seq<Prototype>, list: Seq<usize>, n: int) -> int
    decreases n,
{
    if n <= 0 {
        0
    } else {
        prefix_weight(protos, list, n - 1) + protos[list[n - 1] as int].weight
    }
}

/// The entry picked by the draw `r`: the first index `i` with `r <= weight(0..=i)` (the
/// first entry whose weight, subtracted in order, drives `r` to zero or below), and the
/// last index when there is none.
pub open spec fn weighted_pick(protos: Seq<Prototype>, list: Seq<usize>, r: int) -> int {
    if exists|i: int| 0 <= i < list.len() && r <= #[trigger] prefix_weight(protos, list, i + 1) {
        choose|i: int|
            0 <= i < list.len() && r <= #[trigger] prefix_weight(protos, list, i + 1) && forall|j: int|
                0 <= j < i ==> r > #[trigger] prefix_weight(protos, list, j + 1)
    } else {
        list.len() - 1
    }
}

/// `after` and the report `r` are what `change(new)` makes of `before`.
pub open spec fn change_result(before: CellView, new: Seq<usize>, after: CellView, r: bool) -> bool {
    &&& after == CellView { possibilities: new, ..before }
    &&& r == (new.len() != before.possibilities.len())
}

proof fn lemma_prefix_weight_bound(protos: Seq<Prototype>, list: Seq<usize>, n: int)
    requires
        0 <= n,
    ensures
        0 <= prefix_weight(protos, list, n) <= n * 0xffff_ffff,
    decreases n,
{
    if n > 0 {
        lemma_prefix_weight_bound(protos, list, n - 1);
        assert((n - 1) * 0xffff_ffff + 0xffff_ffff == n * 0xffff_ffff) by (nonlinear_arith);
    }
}

impl Cell {
    pub fn new(position: Vec3i, possibilities: Vec<usize>) -> (r: Cell)
        ensures
            r@ == (CellView { position, possibilities: possibilities@, version: 0, locked: false }),
    {
        Cell { position, possibilities, version: 0, locked: false }
    }

    /// An exact copy of this cell.
    pub fn duplicate(&self) -> (r: Cell)
        ensures
            r@ == self@,
    {
        let mut possibilities: Vec<usize> = Vec::new();
        let mut i: usize = 0;
        while i < self.possibilities.len()
            invariant
                i <= self.possibilities@.len(),
                possibilities@ == self.possibilities@.subrange(0, i as int),
            decreases self.possibilities@.len() - i,
        {
            possibilities.push(self.possibilities[i]);
            i = i + 1;
            proof {
                assert(possibilities@ == self.possibilities@.subrange(0, i as int));
            }
        }
        proof {
            assert(possibilities@ == self.possibilities@);
        }
        Cell { position: self.position, possibilities, version: self.version, locked: self.locked }
    }

    /// The number of possibilities left.
    pub fn entropy(&self) -> (r: usize)
        ensures
            r == self.possibilities@.len(),
    {
        self.possibilities.len()
    }

    /// Replaces the possibilities; reports whether their number changed.
    pub fn change(&mut self, prototypes: &Vec<usize>) -> (r: bool)
        ensures
            change_result(old(self)@, prototypes@, final(self)@, r),
    {
        let old_length = self.possibilities.len();
        let mut copy: Vec<usize> = Vec::new();
        let mut i: usize = 0;
        while i < prototypes.len()
            invariant
                i <= prototypes@.len(),
                copy@ == prototypes@.subrange(0, i as int),
            decreases prototypes@.len() - i,
        {
            copy.push(prototypes[i]);
            i = i + 1;
            proof {
                assert(copy@ == prototypes@.subrange(0, i as int));
            }
        }
        proof {
            assert(copy@ == prototypes@);
        }
        self.possibilities = copy;
        self.possibilities.len() != old_length
    }

    /// The constraint update from a neighbouring cell: keeps the possibilities that accept
    /// at least one of `source`'s possibilities in the direction of `source`. `Some` (the
    /// updated cell) iff that removed anything.
    pub fn changes_from(&self, source: &Cell, protos: &Vec<Prototype>) -> (r: Option<Cell>)
        requires
            indices_valid(protos@, self.possibilities@),
            indices_valid(protos@, source.possibilities@),
        ensures
            r.is_some() <==> constrained_by(protos@, self@, source@).len()
                != self.possibilities@.len(),
            r.is_some() ==> r.unwrap()@ == (CellView {
                possibilities: constrained_by(protos@, self@, source@),
                ..self@
            }),
    {
        let direction = direction_from(self.position, source.position);
        let ghost pred = supported_by(protos@, source.possibilities@, direction);
        let mut kept: Vec<usize> = Vec::new();
        let mut i: usize = 0;
        while i < self.possibilities.len()
            invariant
                i <= self.possibilities@.len(),
                indices_valid(protos@, self.possibilities@),
                indices_valid(protos@, source.possibilities@),
                direction == direction_between(self.position, source.position),
                pred == supported_by(protos@, source.possibilities@, direction),
                kept@ == self.possibilities@.subrange(0, i as int).filter(pred),
            decreases self.possibilities@.len() - i,
        {
            let e = self.possibilities[i];
            proof {
                assert(self.possibilities@.subrange(0, i + 1) == self.possibilities@.subrange(
                    0,
                    i as int,
                ).push(e));
                self.possibilities@.subrange(0, i as int).lemma_filter_push(e, pred);
                assert(e < protos@.len());
                assert(pred(e) == compatible_any(
                    protos@,
                    protos@[e as int],
                    source.possibilities@,
                    direction,
                ));
            }
            if protos[e].compatible_with_any(&source.possibilities, protos, direction) {
                kept.push(e);
            }
            i = i + 1;
        }
        proof {
            assert(self.possibilities@.subrange(0, self.possibilities@.len() as int)
                == self.possibilities@);
        }
        if kept.len() != self.possibilities.len() {
            let mut changed = self.duplicate();
            changed.change(&kept);
            Some(changed)
        } else {
            None
        }
    }

    /// The index (into `possibilities`) that the draw `r` picks: the first `i` whose
    /// running weight total reaches `r`, else the last one. `None` when no possibility is
    /// left.
    pub fn choose_weighted(&self, protos: &Vec<Prototype>, r: u64) -> (res: Option<usize>)
        requires
            indices_valid(protos@, self.possibilities@),
        ensures
            self.possibilities@.len() == 0 <==> res.is_none(),
            res.is_some() ==> res.unwrap() < self.possibilities@.len(),
            res.is_some() ==> res.unwrap() as int == weighted_pick(
                protos@,
                self.possibilities@,
                r as int,
            ),
    {
        let n = self.possibilities.len();
        if n == 0 {
            return None;
        }
        let ghost list = self.possibilities@;
        let mut acc: u128 = 0;
        let mut i: usize = 0;
        while i < n
            invariant
                n == list.len(),
                list == self.possibilities@,
                indices_valid(protos@, list),
                i <= n,
                acc == prefix_weight(protos@, list, i as int),
                forall|j: int| 0 <= j < i ==> r > #[trigger] prefix_weight(protos@, list, j + 1),
            decreases n - i,
        {
            proof {
                lemma_prefix_weight_bound(protos@, list, i + 1);
                assert((i + 1) * 0xffff_ffffint <= 0x1_0000_0000_0000_0000 * 0xffff_ffffint)
                    by (nonlinear_arith)
                    requires
                        i + 1 <= 0x1_0000_0000_0000_0000int,
                ;
            }
            acc = acc + protos[self.possibilities[i]].weight as u128;
            if (r as u128) <= acc {
                proof {
                    assert(exists|k: int| 0 <= k < list.len() && r <= #[trigger] prefix_weight(protos@, list, k + 1));
                    let c = choose|k: int|
                        0 <= k < list.len() && r <= #[trigger] prefix_weight(protos@, list, k + 1) && forall|j: int|
                            0 <= j < k ==> r > #[trigger] prefix_weight(protos@, list, j + 1);
                    if c < i {
                        assert(r > prefix_weight(protos@, list, c + 1));
                    }
                    if c > i {
                        assert(r > prefix_weight(protos@, list, i + 1));
                    }
                }
                return Some(i);
            }
            i = i + 1;
        }
        proof {
            assert(!exists|k: int| 0 <= k < list.len() && r <= #[trigger] prefix_weight(protos@, list, k + 1));
        }
        Some(n - 1)
    }

    /// Total weight of the possibilities, capped at `u64::MAX`.
    pub fn total_weight(&self, protos: &Vec<Prototype>) -> (res: u64)
        requires
            indices_valid(protos@, self.possibilities@),
        ensures
            res as int == if prefix_weight(protos@, self.possibilities@, self.possibilities@.len() as int)
                > u64::MAX {
                u64::MAX as int
            } else {
                prefix_weight(protos@, self.possibilities@, self.possibilities@.len() as int)
            },
    {
        let n = self.possibilities.len();
        let ghost list = self.possibilities@;
        let mut acc: u128 = 0;
        let mut i: usize = 0;
        while i < n
            invariant
                n == list.len(),
                list == self.possibilities@,
                indices_valid(protos@, list),
                i <= n,
                acc == prefix_weight(protos@, list, i as int),
            decreases n - i,
        {
            proof {
                lemma_prefix_weight_bound(protos@, list, i + 1);
                assert((i + 1) * 0xffff_ffffint <= 0x1_0000_0000_0000_0000 * 0xffff_ffffint)
                    by (nonlinear_arith)
                    requires
                        i + 1 <= 0x1_0000_0000_0000_0000int,
                ;
            }
            acc = acc + protos[self.possibilities[i]].weight as u128;
            i = i + 1;
        }
        if acc > u64::MAX as u128 {
            u64::MAX
        } else {
            acc as u64
        }
    }

    /// A copy of this cell collapsed to the single entry `proto`.
    pub fn collapsed_to(&self, proto: usize) -> (r: Cell)
        ensures
            r@ == (CellView { possibilities: seq![proto], ..self@ }),
    {
        let mut c = self.duplicate();
        let mut v: Vec<usize> = Vec::new();
        v.push(proto);
        proof {
            assert(v@ == seq![proto]);
        }
        c.change(&v);
        c
    }

    /// A copy of this cell collapsed by the weighted draw `r` (see `choose_weighted`);
    /// `None` when no possibility is left.
    pub fn collapsed_by_draw(&self, protos: &Vec<Prototype>, r: u64) -> (res: Option<Cell>)
        requires
            indices_valid(protos@, self.possibilities@),
        ensures
            self.possibilities@.len() == 0 <==> res.is_none(),
            res.is_some() ==> {
                let k = weighted_pick(protos@, self.possibilities@, r as int);
                &&& 0 <= k < self.possibilities@.len()
                &&& res.unwrap()@ == (CellView { possibilities: seq![self.possibilities@[k]], ..self@ })
            },
    {
        match self.choose_weighted(protos, r) {
            None => None,
            Some(i) => Some(self.collapsed_to(self.possibilities[i])),
        }
    }

    /// A copy of this cell collapsed to `prototype` when given, else to a possibility
    /// sampled by weight from `rng`. `None` when it is to be sampled and none is left.
    pub fn collapsed(
        &self,
        prototype: Option<usize>,
        protos: &Vec<Prototype>,
        rng: &mut rand::rngs::StdRng,
    ) -> (res: Option<Cell>)
        requires
            indices_valid(protos@, self.possibilities@),
        ensures
            prototype.is_some() ==> res.is_some() && res.unwrap()@ == (CellView {
                possibilities: seq![prototype.unwrap()],
                ..self@
            }),
            prototype.is_none() ==> (res.is_none() <==> self.possibilities@.len() == 0),
            prototype.is_none() && res.is_some() ==> exists|k: int|
                0 <= k < self.possibilities@.len() && res.unwrap()@ == (CellView {
                    possibilities: seq![#[trigger] self.possibilities@[k]],
                    ..self@
                }),
    {
        match prototype {
            Some(p) => Some(self.collapsed_to(p)),
            None => {
                let total = self.total_weight(protos);
                let r = if total > 0 {
                    draw_below(rng, total)
                } else {
                    0
                };
                let res = self.collapsed_by_draw(protos, r);
                proof {
                    if res.is_some() {
                        let k = weighted_pick(protos@, self.possibilities@, r as int);
                        assert(res.unwrap()@ == (CellView {
                            possibilities: seq![self.possibilities@[k]],
                            ..self@
                        }));
                    }
                }
                res
            },
        }
    }

    // Book-keeping of the cell store.

    pub fn location(&self) -> (r: Vec3i)
        ensures
            r == self.position,
    {
        self.position
    }

    pub fn version(&self) -> (r: u64)
        ensures
            r == self.version,
    {
        self.version
    }

    pub fn set_version(&mut self, version: u64)
        ensures
            final(self)@ == (CellView { version, ..old(self)@ }),
    {
        self.version = version;
    }

    pub fn is_checked_out(&self) -> (r: bool)
        ensures
            r == self.locked,
    {
        self.locked
    }

    /// Marks the cell checked out; false (and no change) if it already was.
    pub fn check_out(&mut self) -> (r: bool)
        ensures
            r == !old(self).locked,
            final(self)@ == (CellView { locked: true, ..old(self)@ }),
    {
        if self.locked {
            return false;
        }
        self.locked = true;
        true
    }

    /// Marks the cell checked in; false (and no change) if it was not checked out.
    pub fn check_in(&mut self) -> (r: bool)
        ensures
            r == old(self).locked,
            final(self)@ == (CellView { locked: false, ..old(self)@ }),
    {
        if !self.locked {
            return false;
        }
        self.locked = false;
        true
    }
}

/// A copy of a list of catalogue indices.
pub fn copy_indices(v: &Vec<usize>) -> (r: Vec<usize>)
    ensures
        r@ == v@,
{
    let mut out: Vec<usize> = Vec::new();
    let mut i: usize = 0;
    while i < v.len()
        invariant
            i <= v@.len(),
            out@ == v@.subrange(0, i as int),
        decreases v@.len() - i,
    {
        out.push(v[i]);
        i = i + 1;
        proof {
            assert(out@ == v@.subrange(0, i as int));
        }
    }
    proof {
        assert(out@ == v@);
    }
    out
}

/// The direction from `from` to `to` (see `direction_between`).
pub fn direction_from(from: Vec3i, to: Vec3i) -> (r: Vec3i)
    ensures
        r == direction_between(from, to),
{
    let dx = to.x as i64 - from.x as i64;
    let dy = to.y as i64 - from.y as i64;
    let dz = to.z as i64 - from.z as i64;
    if i32::MIN as i64 <= dx && dx <= i32::MAX as i64 && i32::MIN as i64 <= dy && dy
        <= i32::MAX as i64 && i32::MIN as i64 <= dz && dz <= i32::MAX as i64 {
        Vec3i { x: dx as i32, y: dy as i32, z: dz as i32 }
    } else {
        Vec3i { x: 0, y: 0, z: 0 }
    }
}

/// Applying `change(new)` a second time with the same `new` leaves the cell as the first
/// call left it, and reports no change.
pub proof fn lemma_change_twice(
    c0: CellView,
    new: Seq<usize>,
    c1: CellView,
    r1: bool,
    c2: CellView,
    r2: bool,
)
    requires
        change_result(c0, new, c1, r1),
        change_result(c1, new, c2, r2),
    ensures
        !r2,
        c2 == c1,
{
}

} // verus!

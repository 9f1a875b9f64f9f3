use vstd::prelude::*;

use crate::cell::{copy_indices, direction_between, supported_by, Cell, CellView};
use crate::chunk::{Chunk, ChunkState};
use crate::messages::WorkerUpdateStatus;
use crate::random::draw_below;
use crate::geometry::{adjacent, in_box, Vec3i};
use crate::library::{range_wf, Range, RangeView};
use crate::prototype::{
    bottom_tag, bottom_tag_string, indices_valid, is_uncapped, lemma_filter_valid, not_constrained,
    Prototype,
};

verus! {

/// Why a chunk step failed.
#[derive(Clone, Copy, PartialEq, Eq, Structural, Debug)]
pub enum ChunkError {
    /// Propagation left the cell at this position with no possibility.
    Overcollapsed(Vec3i),
}

/// Every cell's possibilities name catalogue entries.
pub open spec fn cells_valid(protos: Seq<Prototype>, cells: Seq<CellView>) -> bool {
    forall|i: int| 0 <= i < cells.len() ==> indices_valid(protos, #[trigger] cells[i].possibilities)
}

/// Every possibility of cell `nb` accepts some possibility of cell `src` in the direction
/// of `src`.
pub open spec fn arc_ok(protos: Seq<Prototype>, cells: Seq<CellView>, src: int, nb: int) -> bool {
    forall|k: int|
        0 <= k < cells[nb].possibilities.len() ==> #[trigger] supported_by(
            protos,
            cells[src].possibilities,
            direction_between(cells[nb].position, cells[src].position),
        )(cells[nb].possibilities[k])
}

/// Every axis neighbour of cell `src` is consistent with it.
pub open spec fn settled(protos: Seq<Prototype>, cells: Seq<CellView>, src: int) -> bool {
    forall|nb: int|
        0 <= nb < cells.len() && adjacent(cells[src].position, cells[nb].position) ==> #[trigger] arc_ok(
            protos,
            cells,
            src,
            nb,
        )
}

/// `b` differs from `a` only in possibilities, and only by dropping some.
pub open spec fn shrunk(a: Seq<CellView>, b: Seq<CellView>) -> bool {
    &&& a.len() == b.len()
    &&& forall|i: int|
        0 <= i < a.len() ==> {
            &&& (#[trigger] b[i]).position == a[i].position
            &&& b[i].version == a[i].version
            &&& b[i].locked == a[i].locked
            &&& b[i].possibilities.len() <= a[i].possibilities.len()
            &&& forall|e: usize| b[i].possibilities.contains(e) ==> a[i].possibilities.contains(e)
        }
}

/// The cell at `p` still has possibilities, but an axis neighbour refuses all of them:
/// propagation would empty it.
pub open spec fn emptied_at(protos: Seq<Prototype>, cells: Seq<CellView>, p: Vec3i) -> bool {
    exists|i: int, m: int|
        0 <= i < cells.len() && 0 <= m < cells.len() && #[trigger] cells[i].position == p && adjacent(
            cells[m].position,
            p,
        ) && cells[i].possibilities.len() > 0 && #[trigger] crate::cell::constrained_by(protos, cells[i], cells[m]).len()
            == 0
}

/// Every possibility that `b` dropped from `a` is refused by the final possibilities of
/// some axis neighbour.
pub open spec fn removals_justified(protos: Seq<Prototype>, a: Seq<CellView>, b: Seq<CellView>) -> bool {
    forall|i: int, e: usize|
        0 <= i < a.len() && a[i].possibilities.contains(e) && !(#[trigger] b[i].possibilities.contains(e))
            ==> exists|m: int|
            0 <= m < b.len() && adjacent(b[i].position, b[m].position) && !#[trigger] supported_by(
                protos,
                b[m].possibilities,
                direction_between(b[i].position, b[m].position),
            )(e)
}

proof fn lemma_unsupported_by_subset(protos: Seq<Prototype>, big: Seq<usize>, small: Seq<usize>, d: Vec3i, e: usize)
    requires
        forall|x: usize| small.contains(x) ==> big.contains(x),
        !supported_by(protos, big, d)(e),
    ensures
        !supported_by(protos, small, d)(e),
{
    if supported_by(protos, small, d)(e) {
        let j = choose|j: int| 0 <= j < small.len() && #[trigger] crate::prototype::compatible(protos[e as int], protos[small[j] as int].id@, d);
        assert(small.contains(small[j]));
        let k = choose|k: int| 0 <= k < big.len() && big[k] == small[j];
        assert(crate::prototype::compatible(protos[e as int], protos[big[k] as int].id@, d));
    }
}

/// `b` is `a` with some entries dropped, the rest in their order: the entries of `a`
/// that `b` holds.
pub open spec fn kept_in_order(a: Seq<usize>, b: Seq<usize>) -> bool {
    b == a.filter(|e: usize| b.contains(e))
}

/// Every cell's possibilities in `b` are kept in order from those in `a`.
pub open spec fn kept_order(a: Seq<CellView>, b: Seq<CellView>) -> bool {
    a.len() == b.len() && forall|i: int| 0 <= i < a.len() ==> kept_in_order(a[i].possibilities, #[trigger] b[i].possibilities)
}

proof fn lemma_filter_compose(s: Seq<usize>, f: spec_fn(usize) -> bool, g: spec_fn(usize) -> bool)
    ensures
        s.filter(f).filter(g) == s.filter(|e: usize| f(e) && g(e)),
    decreases s.len(),
{
    reveal(Seq::filter);
    if s.len() > 0 {
        lemma_filter_compose(s.drop_last(), f, g);
        if f(s.last()) {
            s.drop_last().filter(f).lemma_filter_push(s.last(), g);
        }
    }
}

proof fn lemma_filter_congruent(s: Seq<usize>, f: spec_fn(usize) -> bool, g: spec_fn(usize) -> bool)
    requires
        forall|e: usize| s.contains(e) ==> f(e) == g(e),
    ensures
        s.filter(f) == s.filter(g),
    decreases s.len(),
{
    reveal(Seq::filter);
    if s.len() > 0 {
        assert forall|e: usize| s.drop_last().contains(e) implies f(e) == g(e) by {
            let j = choose|j: int| 0 <= j < s.drop_last().len() && s.drop_last()[j] == e;
            assert(s[j] == e);
            assert(s.contains(e));
        }
        lemma_filter_congruent(s.drop_last(), f, g);
        assert(s.contains(s.last())) by {
            assert(s[s.len() - 1] == s.last());
        }
    }
}

proof fn lemma_filter_all(s: Seq<usize>)
    ensures
        s.filter(|e: usize| s.contains(e)) == s,
{
    lemma_filter_congruent(s, |e: usize| s.contains(e), |e: usize| true);
    lemma_filter_true(s);
}

proof fn lemma_filter_true(s: Seq<usize>)
    ensures
        s.filter(|e: usize| true) == s,
    decreases s.len(),
{
    reveal(Seq::filter);
    if s.len() > 0 {
        lemma_filter_true(s.drop_last());
        assert(s.drop_last().push(s.last()) == s);
    }
}

/// Filtering a kept-in-order list again keeps it in order from the original.
proof fn lemma_kept_filter(a: Seq<usize>, b: Seq<usize>, p: spec_fn(usize) -> bool)
    requires
        kept_in_order(a, b),
    ensures
        kept_in_order(a, b.filter(p)),
{
    let c = b.filter(p);
    let g = |e: usize| b.contains(e);
    lemma_filter_compose(a, g, p);
    assert forall|e: usize| a.contains(e) implies (g(e) && p(e)) == c.contains(e) by {
        if c.contains(e) {
            b.lemma_filter_contains_rev(p, e);
            let k = c.index_of(e);
            b.lemma_filter_pred(p, k);
        }
        if g(e) && p(e) {
            let k = b.index_of(e);
            b.lemma_filter_contains(p, k);
        }
    }
    lemma_filter_congruent(a, |e: usize| g(e) && p(e), |e: usize| c.contains(e));
}

/// Sum of the possibility counts of the first `n` cells.
pub open spec fn total_entropy(cells: Seq<CellView>, n: int) -> int
    decreases n,
{
    if n <= 0 {
        0
    } else {
        total_entropy(cells, n - 1) + cells[n - 1].possibilities.len()
    }
}

/// The final snapshots, in range order, of the cells whose possibility count differs.
pub open spec fn changed_cells(before: Seq<CellView>, after: Seq<CellView>, n: int) -> Seq<CellView>
    decreases n,
{
    if n <= 0 {
        Seq::empty()
    } else {
        let prev = changed_cells(before, after, n - 1);
        if after[n - 1].possibilities.len() != before[n - 1].possibilities.len() {
            prev.push(after[n - 1])
        } else {
            prev
        }
    }
}

pub open spec fn up() -> Vec3i {
    Vec3i { x: 0, y: 1, z: 0 }
}

pub open spec fn down() -> Vec3i {
    Vec3i { x: 0, y: -1i32, z: 0 }
}

pub open spec fn right() -> Vec3i {
    Vec3i { x: 1, y: 0, z: 0 }
}

pub open spec fn left() -> Vec3i {
    Vec3i { x: -1i32, y: 0, z: 0 }
}

pub open spec fn forward() -> Vec3i {
    Vec3i { x: 0, y: 0, z: -1i32 }
}

pub open spec fn back() -> Vec3i {
    Vec3i { x: 0, y: 0, z: 1 }
}

/// The boundary rules: on the ground keep what is open below, elsewhere drop the
/// ground-only tiles; on the layer `top_y` keep what is open above; on the four side faces
/// of the map keep what is open toward the face.
pub open spec fn edge_filtered(
    protos: Seq<Prototype>,
    list: Seq<usize>,
    p: Vec3i,
    map_size: Vec3i,
    top_y: int,
) -> Seq<usize> {
    let l1 = if p.y == 0 {
        list.filter(is_uncapped(protos, down()))
    } else {
        list.filter(not_constrained(protos, bottom_tag()))
    };
    let l2 = if p.y == top_y {
        l1.filter(is_uncapped(protos, up()))
    } else {
        l1
    };
    let l3 = if p.x == 0 {
        l2.filter(is_uncapped(protos, left()))
    } else {
        l2
    };
    let l4 = if p.x == map_size.x - 1 {
        l3.filter(is_uncapped(protos, right()))
    } else {
        l3
    };
    let l5 = if p.z == 0 {
        l4.filter(is_uncapped(protos, forward()))
    } else {
        l4
    };
    if p.z == map_size.z - 1 {
        l5.filter(is_uncapped(protos, back()))
    } else {
        l5
    }
}

/// The one predicate that `edge_filtered` applies to each entry.
pub open spec fn edge_pred(protos: Seq<Prototype>, p: Vec3i, map_size: Vec3i, top_y: int) -> spec_fn(usize) -> bool {
    |e: usize|
        (if p.y == 0 { is_uncapped(protos, down())(e) } else { not_constrained(protos, bottom_tag())(e) })
        && (p.y == top_y ==> is_uncapped(protos, up())(e))
        && (p.x == 0 ==> is_uncapped(protos, left())(e))
        && (p.x == map_size.x - 1 ==> is_uncapped(protos, right())(e))
        && (p.z == 0 ==> is_uncapped(protos, forward())(e))
        && (p.z == map_size.z - 1 ==> is_uncapped(protos, back())(e))
}

proof fn lemma_stage(l: Seq<usize>, c: bool, f: spec_fn(usize) -> bool, acc: spec_fn(usize) -> bool, out: Seq<usize>)
    requires
        out == (if c { l.filter(acc).filter(f) } else { l.filter(acc) }),
    ensures
        out == l.filter(|e: usize| acc(e) && (c ==> f(e))),
{
    if c {
        lemma_filter_compose(l, acc, f);
        lemma_filter_congruent(l, |e: usize| acc(e) && f(e), |e: usize| acc(e) && (c ==> f(e)));
    } else {
        lemma_filter_congruent(l, acc, |e: usize| acc(e) && (c ==> f(e)));
    }
}

/// The boundary rules are one filter.
pub proof fn lemma_edge_filtered_is_filter(protos: Seq<Prototype>, l: Seq<usize>, p: Vec3i, map_size: Vec3i, top_y: int)
    ensures
        edge_filtered(protos, l, p, map_size, top_y) == l.filter(edge_pred(protos, p, map_size, top_y)),
{
    let f0 = if p.y == 0 { is_uncapped(protos, down()) } else { not_constrained(protos, bottom_tag()) };
    let a1 = |e: usize| f0(e);
    lemma_filter_congruent(l, f0, a1);
    let l1 = l.filter(a1);
    let a2 = |e: usize| a1(e) && (p.y == top_y ==> is_uncapped(protos, up())(e));
    let l2 = if p.y == top_y { l1.filter(is_uncapped(protos, up())) } else { l1 };
    lemma_stage(l, p.y == top_y, is_uncapped(protos, up()), a1, l2);
    let a3 = |e: usize| a2(e) && (p.x == 0 ==> is_uncapped(protos, left())(e));
    let l3 = if p.x == 0 { l2.filter(is_uncapped(protos, left())) } else { l2 };
    lemma_stage(l, p.x == 0, is_uncapped(protos, left()), a2, l3);
    let a4 = |e: usize| a3(e) && (p.x == map_size.x - 1 ==> is_uncapped(protos, right())(e));
    let l4 = if p.x == map_size.x - 1 { l3.filter(is_uncapped(protos, right())) } else { l3 };
    lemma_stage(l, p.x == map_size.x - 1, is_uncapped(protos, right()), a3, l4);
    let a5 = |e: usize| a4(e) && (p.z == 0 ==> is_uncapped(protos, forward())(e));
    let l5 = if p.z == 0 { l4.filter(is_uncapped(protos, forward())) } else { l4 };
    lemma_stage(l, p.z == 0, is_uncapped(protos, forward()), a4, l5);
    let a6 = |e: usize| a5(e) && (p.z == map_size.z - 1 ==> is_uncapped(protos, back())(e));
    let l6 = if p.z == map_size.z - 1 { l5.filter(is_uncapped(protos, back())) } else { l5 };
    lemma_stage(l, p.z == map_size.z - 1, is_uncapped(protos, back()), a5, l6);
    lemma_filter_congruent(l, a6, edge_pred(protos, p, map_size, top_y));
}

/// On a list the map's boundary rules already shaped (top layer `t`), the boundary rules
/// with another top layer change nothing on a cell off that layer: `apply_constraints` on a
/// fresh store only touches the chunk's top layer.
pub proof fn lemma_constraints_off_top(
    protos: Seq<Prototype>,
    base: Seq<usize>,
    p: Vec3i,
    map_size: Vec3i,
    t: int,
    top: int,
)
    requires
        p.y != top,
    ensures
        edge_filtered(protos, edge_filtered(protos, base, p, map_size, t), p, map_size, top) == edge_filtered(
            protos,
            base,
            p,
            map_size,
            t,
        ),
{
    let l = edge_filtered(protos, base, p, map_size, t);
    lemma_edge_filtered_is_filter(protos, base, p, map_size, t);
    lemma_edge_filtered_is_filter(protos, l, p, map_size, top);
    let pt = edge_pred(protos, p, map_size, t);
    let pq = edge_pred(protos, p, map_size, top);
    lemma_filter_compose(base, pt, pq);
    lemma_filter_congruent(base, |e: usize| pt(e) && pq(e), pt);
}

/// Applying the boundary rules a second time changes nothing: `apply_constraints` is
/// idempotent.
pub proof fn lemma_edge_filtered_idempotent(protos: Seq<Prototype>, l: Seq<usize>, p: Vec3i, map_size: Vec3i, top_y: int)
    ensures
        edge_filtered(protos, edge_filtered(protos, l, p, map_size, top_y), p, map_size, top_y) == edge_filtered(
            protos,
            l,
            p,
            map_size,
            top_y,
        ),
{
    let once = edge_filtered(protos, l, p, map_size, top_y);
    lemma_edge_filtered_is_filter(protos, l, p, map_size, top_y);
    lemma_edge_filtered_is_filter(protos, once, p, map_size, top_y);
    crate::prototype::lemma_filter_idempotent(l, edge_pred(protos, p, map_size, top_y));
}

/// The whole catalogue, as indices.
pub open spec fn all_indices(n: int) -> Seq<usize> {
    Seq::new(n as nat, |i: int| i as usize)
}

/// Effective entropy used to pick the next cell: the count, plus `ground_bias` on the
/// ground layer.
pub open spec fn effective_entropy(c: CellView, ground_bias: int) -> int {
    c.possibilities.len() + if c.position.y == 0 {
        ground_bias
    } else {
        0
    }
}

/// Cell `i` is still open and no open cell has a lower effective entropy.
pub open spec fn is_candidate(cells: Seq<CellView>, i: int, ground_bias: int) -> bool {
    &&& 0 <= i < cells.len()
    &&& cells[i].possibilities.len() > 1
    &&& forall|j: int|
        0 <= j < cells.len() && (#[trigger] cells[j]).possibilities.len() > 1 ==> effective_entropy(
            cells[i],
            ground_bias,
        ) <= effective_entropy(cells[j], ground_bias)
}

/// Default bias that deprioritises the ground layer.
pub const GROUND_BIAS: u64 = 100;

proof fn lemma_total_update(cells: Seq<CellView>, n: int, idx: int, c: CellView)
    requires
        0 <= n <= cells.len(),
        0 <= idx < cells.len(),
    ensures
        total_entropy(cells.update(idx, c), n) == total_entropy(cells, n) + if idx < n {
            c.possibilities.len() - cells[idx].possibilities.len()
        } else {
            0
        },
    decreases n,
{
    if n > 0 {
        lemma_total_update(cells, n - 1, idx, c);
    }
}

proof fn lemma_filter_full<A>(s: Seq<A>, pred: spec_fn(A) -> bool)
    requires
        s.filter(pred).len() == s.len(),
    ensures
        forall|k: int| 0 <= k < s.len() ==> #[trigger] pred(s[k]),
    decreases s.len(),
{
    reveal(Seq::filter);
    if s.len() > 0 {
        let rest = s.drop_last();
        rest.lemma_filter_len(pred);
        if !pred(s.last()) {
            assert(false);
        }
        lemma_filter_full(rest, pred);
        assert forall|k: int| 0 <= k < s.len() implies #[trigger] pred(s[k]) by {
            if k < s.len() - 1 {
                assert(s[k] == rest[k]);
            }
        }
    }
}

proof fn lemma_filter_elements<A>(s: Seq<A>, pred: spec_fn(A) -> bool)
    ensures
        forall|k: int| 0 <= k < s.filter(pred).len() ==> #[trigger] pred(s.filter(pred)[k]),
        forall|e: A| s.filter(pred).contains(e) ==> #[trigger] s.contains(e),
{
    assert forall|k: int| 0 <= k < s.filter(pred).len() implies #[trigger] pred(s.filter(pred)[k]) by {
        s.lemma_filter_pred(pred, k);
    }
    assert forall|e: A| s.filter(pred).contains(e) implies #[trigger] s.contains(e) by {
        s.lemma_filter_contains_rev(pred, e);
    }
}

/// Narrowing one cell to a subset of its possibilities keeps every other settled cell
/// settled.
proof fn lemma_settled_after_shrink(
    protos: Seq<Prototype>,
    cur: Seq<CellView>,
    n: int,
    c: CellView,
    j: int,
)
    requires
        0 <= n < cur.len(),
        0 <= j < cur.len(),
        j != n,
        c.position == cur[n].position,
        forall|e: usize| c.possibilities.contains(e) ==> cur[n].possibilities.contains(e),
        settled(protos, cur, j),
    ensures
        settled(protos, cur.update(n, c), j),
{
    let new = cur.update(n, c);
    assert forall|nb: int|
        0 <= nb < new.len() && adjacent(new[j].position, new[nb].position) implies #[trigger] arc_ok(
        protos,
        new,
        j,
        nb,
    ) by {
        assert(arc_ok(protos, cur, j, nb));
        if nb == n {
            assert forall|k: int| 0 <= k < new[nb].possibilities.len() implies #[trigger] supported_by(
                protos,
                new[j].possibilities,
                direction_between(new[nb].position, new[j].position),
            )(new[nb].possibilities[k]) by {
                let e = c.possibilities[k];
                assert(c.possibilities.contains(e));
                let k2 = choose|k2: int|
                    0 <= k2 < cur[n].possibilities.len() && cur[n].possibilities[k2] == e;
                assert(supported_by(
                    protos,
                    cur[j].possibilities,
                    direction_between(cur[nb].position, cur[j].position),
                )(cur[nb].possibilities[k2]));
            }
        }
    }
}

proof fn lemma_total_nonneg(cells: Seq<CellView>, n: int)
    ensures
        total_entropy(cells, n) >= 0,
    decreases n,
{
    if n > 0 {
        lemma_total_nonneg(cells, n - 1);
    }
}

proof fn lemma_wf_same_positions(r: RangeView, s: RangeView)
    requires
        range_wf(r),
        s.start == r.start,
        s.end == r.end,
        s.size == r.size,
        s.books.len() == r.books.len(),
        forall|i: int| 0 <= i < r.books.len() ==> (#[trigger] s.books[i]).position == r.books[i].position,
    ensures
        range_wf(s),
{
    assert forall|j: int| 0 <= j < s.books.len() implies {
        let p = #[trigger] s.books[j].position;
        &&& in_box(p, s.start, crate::library::end_of(s.start, s.size))
        &&& crate::geometry::linear_at(s.size, s.start, p) == j
    } by {
        assert(s.books[j].position == r.books[j].position);
    }
}

/// Two adjacent collapsed cells, where the second's neighbourhood is consistent: the
/// first cell's prototype lists the second's id toward it.
pub proof fn lemma_collapsed_pair_compatible(protos: Seq<Prototype>, cells: Seq<CellView>, a: int, b: int)
    requires
        0 <= a < cells.len(),
        0 <= b < cells.len(),
        adjacent(cells[b].position, cells[a].position),
        settled(protos, cells, b),
        cells[a].possibilities.len() == 1,
        cells[b].possibilities.len() == 1,
    ensures
        crate::prototype::compatible(
            protos[cells[a].possibilities[0] as int],
            protos[cells[b].possibilities[0] as int].id@,
            direction_between(cells[a].position, cells[b].position),
        ),
{
    assert(arc_ok(protos, cells, b, a));
    assert(supported_by(
        protos,
        cells[b].possibilities,
        direction_between(cells[a].position, cells[b].position),
    )(cells[a].possibilities[0]));
}

/// In a range where every cell is consistent with its neighbours (as `propagate_all`
/// leaves it), every two adjacent collapsed cells agree: the first cell's prototype lists
/// the second's id toward it.
pub proof fn lemma_settled_cells_compatible(protos: Seq<Prototype>, cells: Seq<CellView>)
    requires
        forall|i: int| 0 <= i < cells.len() ==> #[trigger] settled(protos, cells, i),
    ensures
        forall|a: int, b: int|
            0 <= a < cells.len() && 0 <= b < cells.len() && adjacent(cells[b].position, cells[a].position)
                && (#[trigger] cells[a]).possibilities.len() == 1 && (#[trigger] cells[b]).possibilities.len() == 1
                ==> crate::prototype::compatible(
                protos[cells[a].possibilities[0] as int],
                protos[cells[b].possibilities[0] as int].id@,
                direction_between(cells[a].position, cells[b].position),
            ),
{
    assert forall|a: int, b: int|
        0 <= a < cells.len() && 0 <= b < cells.len() && adjacent(cells[b].position, cells[a].position)
            && (#[trigger] cells[a]).possibilities.len() == 1 && (#[trigger] cells[b]).possibilities.len() == 1
            implies crate::prototype::compatible(
            protos[cells[a].possibilities[0] as int],
            protos[cells[b].possibilities[0] as int].id@,
            direction_between(cells[a].position, cells[b].position),
        ) by {
        assert(settled(protos, cells, b));
        lemma_collapsed_pair_compatible(protos, cells, a, b);
    }
}

impl Chunk {
    /// Resets every cell of `range` to the whole catalogue under the map-boundary rules
    /// (`edge_filtered` with the map's top layer). Returns the cells' new snapshots.
    pub fn reset_cells(&self, range: &mut Range, proto_data: &Vec<Prototype>, map_size: Vec3i) -> (r: Vec<Cell>)
        requires
            range_wf(old(range)@),
        ensures
            range_wf(final(range)@),
            cells_valid(proto_data@, final(range)@.books),
            final(range).start == old(range).start,
            final(range).end == old(range).end,
            final(range).size == old(range).size,
            final(range).books@.len() == old(range).books@.len(),
            forall|j: int|
                0 <= j < old(range).books@.len() ==> (#[trigger] final(range).books@[j])@ == (CellView {
                    possibilities: edge_filtered(
                        proto_data@,
                        all_indices(proto_data@.len() as int),
                        old(range).books@[j].position,
                        map_size,
                        map_size.y - 1,
                    ),
                    ..old(range).books@[j]@
                }),
            r@.len() == old(range).books@.len(),
            forall|j: int| 0 <= j < r@.len() ==> (#[trigger] r@[j])@ == final(range).books@[j]@,
    {
        let n = range.books.len();
        let mut out: Vec<Cell> = Vec::new();
        let mut j: usize = 0;
        while j < n
            invariant
                n == old(range).books@.len(),
                range.start == old(range).start,
                range.end == old(range).end,
                range.size == old(range).size,
                range.books@.len() == n,
                j <= n,
                out@.len() == j,
                forall|k: int| 0 <= k < j ==> (#[trigger] out@[k])@ == range.books@[k]@,
                forall|k: int| 0 <= k < j ==> indices_valid(proto_data@, (#[trigger] range.books@[k]).possibilities@),
                forall|k: int|
                    j <= k < n ==> #[trigger] range.books@[k] == old(range).books@[k],
                forall|k: int|
                    0 <= k < j ==> (#[trigger] range.books@[k])@ == (CellView {
                        possibilities: edge_filtered(
                            proto_data@,
                            all_indices(proto_data@.len() as int),
                            old(range).books@[k].position,
                            map_size,
                            map_size.y - 1,
                        ),
                        ..old(range).books@[k]@
                    }),
            decreases n - j,
        {
            let mut list: Vec<usize> = Vec::new();
            let mut i: usize = 0;
            while i < proto_data.len()
                invariant
                    i <= proto_data@.len(),
                    list@ == all_indices(i as int),
                decreases proto_data@.len() - i,
            {
                list.push(i);
                i = i + 1;
                proof {
                    assert(list@ == all_indices(i as int));
                }
            }
            assert(indices_valid(proto_data@, list@));
            let top_y: i64 = map_size.y as i64 - 1;
            let p = range.books[j].position;
            apply_edge_rules(proto_data, &mut list, p, map_size, top_y);
            let mut c = range.books[j].duplicate();
            c.change(&list);
            out.push(c.duplicate());
            range.books.set(j, c);
            j = j + 1;
        }
        proof {
            lemma_wf_same_positions(old(range)@, range@);
            assert forall|k: int| 0 <= k < range@.books.len() implies indices_valid(proto_data@, #[trigger] range@.books[k].possibilities) by {
                assert(range@.books[k] == range.books@[k]@);
            }
        }
        out
    }

    /// Applies the boundary rules to the current possibilities of every cell of `range`,
    /// with the chunk's own top layer (clamped to the map) as the layer that must be open
    /// above. Returns nothing: the changes are reported by the propagation that follows.
    pub fn apply_constraints(&self, range: &mut Range, proto_data: &Vec<Prototype>, map_size: Vec3i) -> (r: Vec<Cell>)
        requires
            crate::chunk::chunk_wf(*self),
            range_wf(old(range)@),
            cells_valid(proto_data@, old(range)@.books),
        ensures
            range_wf(final(range)@),
            final(range).start == old(range).start,
            final(range).end == old(range).end,
            final(range).size == old(range).size,
            final(range).books@.len() == old(range).books@.len(),
            cells_valid(proto_data@, final(range)@.books),
            forall|j: int|
                0 <= j < old(range).books@.len() ==> (#[trigger] final(range).books@[j])@ == (CellView {
                    possibilities: edge_filtered(
                        proto_data@,
                        old(range).books@[j].possibilities@,
                        old(range).books@[j].position,
                        map_size,
                        chunk_top(*self, map_size),
                    ),
                    ..old(range).books@[j]@
                }),
            r@.len() == 0,
    {
        let top = self.position.y as i64 + self.size.y as i64;
        let top_y: i64 = if top < map_size.y as i64 { top } else { map_size.y as i64 } - 1;
        let n = range.books.len();
        let mut j: usize = 0;
        while j < n
            invariant
                n == old(range).books@.len(),
                top_y == chunk_top(*self, map_size),
                cells_valid(proto_data@, old(range)@.books),
                range.start == old(range).start,
                range.end == old(range).end,
                range.size == old(range).size,
                range.books@.len() == n,
                j <= n,
                forall|k: int|
                    j <= k < n ==> #[trigger] range.books@[k] == old(range).books@[k],
                forall|k: int|
                    0 <= k < j ==> (#[trigger] range.books@[k])@ == (CellView {
                        possibilities: edge_filtered(
                            proto_data@,
                            old(range).books@[k].possibilities@,
                            old(range).books@[k].position,
                            map_size,
                            chunk_top(*self, map_size),
                        ),
                        ..old(range).books@[k]@
                    }),
                forall|k: int|
                    0 <= k < j ==> indices_valid(proto_data@, (#[trigger] range.books@[k]).possibilities@),
            decreases n - j,
        {
            let mut c = range.books[j].duplicate();
            assert(old(range)@.books[j as int] == old(range).books@[j as int]@);
            assert(range.books@[j as int] == old(range).books@[j as int]);
            assert(indices_valid(proto_data@, old(range)@.books[j as int].possibilities));
            let p = c.position;
            let mut list = copy_indices(&c.possibilities);
            apply_edge_rules(proto_data, &mut list, p, map_size, top_y);
            c.change(&list);
            range.books.set(j, c);
            j = j + 1;
        }
        proof {
            assert forall|k: int| 0 <= k < final(range)@.books.len() implies indices_valid(
                proto_data@,
                #[trigger] final(range)@.books[k].possibilities,
            ) by {
                assert(final(range)@.books[k] == range.books@[k]@);
            }
            lemma_wf_same_positions(old(range)@, range@);
        }
        Vec::new()
    }
}

impl Chunk {
    /// Propagates constraints from the cells listed in `sources` until no neighbour
    /// shrinks any further (a stack of cells still to be visited). Stops with
    /// `Overcollapsed` before a cell would be left with no possibility.
    ///
    /// On success every source, and every cell that was consistent with its neighbours
    /// before, is consistent with all of its neighbours in the range.
    pub fn propagate(&self, range: &mut Range, protos: &Vec<Prototype>, sources: Vec<usize>) -> (res:
        Result<(), ChunkError>)
        requires
            range_wf(old(range)@),
            cells_valid(protos@, old(range)@.books),
            forall|k: int| 0 <= k < sources@.len() ==> #[trigger] sources@[k] < old(range).books@.len(),
        ensures
            final(range).start == old(range).start,
            final(range).end == old(range).end,
            final(range).size == old(range).size,
            range_wf(final(range)@),
            cells_valid(protos@, final(range)@.books),
            shrunk(old(range)@.books, final(range)@.books),
            forall|i: int|
                0 <= i < final(range)@.books.len() && (#[trigger] final(range)@.books[i]).possibilities.len()
                    == 0 ==> old(range)@.books[i].possibilities.len() == 0,
            res.is_ok() ==> forall|i: int|
                0 <= i < old(range)@.books.len() && (sources@.contains(i as usize) || settled(
                    protos@,
                    old(range)@.books,
                    i,
                )) ==> #[trigger] settled(protos@, final(range)@.books, i),
            removals_justified(protos@, old(range)@.books, final(range)@.books),
            kept_order(old(range)@.books, final(range)@.books),
            res matches Err(ChunkError::Overcollapsed(p)) ==> emptied_at(protos@, final(range)@.books, p),
    {
        let ghost b0 = range@.books;
        proof {
            assert forall|i: int| 0 <= i < b0.len() implies kept_in_order(b0[i].possibilities, #[trigger] b0[i].possibilities) by {
                lemma_filter_all(b0[i].possibilities);
            }
        }
        let n_books = range.books.len();
        let ghost len = n_books as int;
        let mut stack = sources;
        while stack.len() > 0
            invariant
                range.start == old(range).start,
                range.end == old(range).end,
                range.size == old(range).size,
                range_wf(range@),
                b0 == old(range)@.books,
                len == b0.len(),
                len == n_books,
                range@.books.len() == len,
                cells_valid(protos@, range@.books),
                shrunk(b0, range@.books),
                removals_justified(protos@, b0, range@.books),
                kept_order(b0, range@.books),
                forall|i: int|
                    0 <= i < len && (#[trigger] range@.books[i]).possibilities.len() == 0 ==> b0[i].possibilities.len() == 0,
                forall|k: int| 0 <= k < stack@.len() ==> #[trigger] stack@[k] < len,
                forall|i: int|
                    0 <= i < len && (sources@.contains(i as usize) || settled(protos@, b0, i)) ==> (
                    stack@.contains(i as usize) || #[trigger] settled(protos@, range@.books, i)),
            decreases 7 * total_entropy(range@.books, len) + stack@.len(),
        {
            proof {
                lemma_total_nonneg(range@.books, len);
            }
            let ghost e_pop = total_entropy(range@.books, len);
            let ghost stack_before = stack@;
            let i = stack.pop().unwrap();
            proof {
                assert(stack_before == stack@.push(i));
                assert forall|j: int| 0 <= j < len && j != i && #[trigger] stack_before.contains(j as usize) implies stack@.contains(j as usize) by {
                    let w = choose|w: int| 0 <= w < stack_before.len() && stack_before[w] == j as usize;
                    assert(stack_before[stack_before.len() - 1] == i);
                    if w == stack_before.len() - 1 {
                        assert(j as usize == i);
                        assert(false);
                    }
                    assert(w < stack@.len());
                    assert(stack@[w] == j as usize);
                }
            }
            assert(i < range.books@.len());
            let src = range.books[i].duplicate();
            assert(range@.books[i as int] == src@);
            let nbrs = range.get_neighbors(src.position);
            let mut k: usize = 0;
            #[verifier::loop_isolation(false)]
            while k < nbrs.len()
                invariant
                    range.start == old(range).start,
                    range.end == old(range).end,
                    range.size == old(range).size,
                    range_wf(range@),
                    b0 == old(range)@.books,
                    len == b0.len(),
                    range@.books.len() == len,
                    0 <= i < len,
                    cells_valid(protos@, range@.books),
                    shrunk(b0, range@.books),
                    removals_justified(protos@, b0, range@.books),
                    kept_order(b0, range@.books),
                    range@.books[i as int] == src@,
                    k <= nbrs@.len(),
                    forall|j: int| 0 <= j < nbrs@.len() ==> adjacent(src.position, #[trigger] nbrs@[j]) && in_box(nbrs@[j], range.start, range.end),
                    forall|q: Vec3i| adjacent(src.position, q) && in_box(q, range.start, range.end) ==> #[trigger] nbrs@.contains(q),
                    forall|i2: int|
                        0 <= i2 < len && (#[trigger] range@.books[i2]).possibilities.len() == 0 ==> b0[i2].possibilities.len() == 0,
                    forall|m: int| 0 <= m < stack@.len() ==> #[trigger] stack@[m] < len,
                    forall|j: int|
                        0 <= j < len && j != i && (sources@.contains(j as usize) || settled(protos@, b0, j)) ==> (
                        stack@.contains(j as usize) || #[trigger] settled(protos@, range@.books, j)),
                    forall|m: int|
                        0 <= m < k ==> #[trigger] arc_ok(
                            protos@,
                            range@.books,
                            i as int,
                            crate::geometry::linear_at(range.size, range.start, nbrs@[m]),
                        ),
                    7 * total_entropy(range@.books, len) + stack@.len() < 7 * e_pop + stack_before.len(),
                    stack@.len() <= stack_before.len() + k,
                    nbrs@.len() <= 6,
                decreases nbrs@.len() - k,
            {
                let q = nbrs[k];
                let n = range.index(q);
                let ghost cur = range@.books;
                let ghost rv = range@;
                assert(cur[n as int] == range.books@[n as int]@);
                assert(n != i);
                match range.books[n].changes_from(&src, protos) {
                    Some(c) => {
                        if c.possibilities.len() == 0 {
                            proof {
                                assert(cur[n as int].position == b0[n as int].position);
                                assert(cur[i as int] == src@);
                                assert(adjacent(cur[i as int].position, q));
                                assert(crate::cell::constrained_by(protos@, cur[n as int], cur[i as int]).len() == 0);
                                assert(cur[n as int].position == q);
                                assert(emptied_at(protos@, cur, q));
                            }
                            return Err(ChunkError::Overcollapsed(q));
                        }
                        let ghost pred = supported_by(protos@, src@.possibilities, direction_between(cur[n as int].position, src.position));
                        proof {
                            lemma_filter_elements(cur[n as int].possibilities, pred);
                            cur[n as int].possibilities.lemma_filter_len(pred);
                            lemma_total_update(cur, len, n as int, c@);
                            lemma_filter_valid(protos@, cur[n as int].possibilities, pred);
                        }
                        let ghost stack_prev = stack@;
                        range.books.set(n, c);
                        stack.push(n);
                        proof {
                            let new = range@.books;
                            assert(new =~= cur.update(n as int, c@));
                            lemma_wf_same_positions(rv, range@);
                            assert forall|j: int|
                                0 <= j < len && j != i && (sources@.contains(j as usize) || settled(protos@, b0, j)) implies (
                                stack@.contains(j as usize) || #[trigger] settled(protos@, new, j)) by {
                                if j == n {
                                    assert(stack@[stack@.len() - 1] == n);
                                } else if stack_prev.contains(j as usize) {
                                    let w = choose|w: int| 0 <= w < stack_prev.len() && stack_prev[w] == j as usize;
                                    assert(stack@[w] == j as usize);
                                } else {
                                    lemma_settled_after_shrink(protos@, cur, n as int, c@, j);
                                }
                            }
                            assert forall|m: int|
                                0 <= m < k + 1 implies #[trigger] arc_ok(
                                    protos@,
                                    new,
                                    i as int,
                                    crate::geometry::linear_at(range.size, range.start, nbrs@[m]),
                                ) by {
                                let t = crate::geometry::linear_at(range.size, range.start, nbrs@[m]);
                                if t != n {
                                    assert(arc_ok(protos@, cur, i as int, t));
                                    crate::library::lemma_box_position(range.size, range.start, cur, nbrs@[m]);
                                    assert(new[t] == cur[t]);
                                }
                            }
                            assert forall|m: int| 0 <= m < stack@.len() implies #[trigger] stack@[m] < len by {
                                if m < stack_prev.len() {
                                    assert(stack@[m] == stack_prev[m]);
                                }
                            }
                            assert forall|i2: int| 0 <= i2 < len && (#[trigger] new[i2]).possibilities.len() == 0 implies b0[i2].possibilities.len() == 0 by {
                                if i2 != n {
                                    assert(new[i2] == cur[i2]);
                                }
                            }
                            assert(shrunk(b0, new)) by {
                                assert forall|i2: int| 0 <= i2 < len implies {
                                    &&& (#[trigger] new[i2]).position == b0[i2].position
                                    &&& new[i2].version == b0[i2].version
                                    &&& new[i2].locked == b0[i2].locked
                                    &&& new[i2].possibilities.len() <= b0[i2].possibilities.len()
                                    &&& forall|e: usize| new[i2].possibilities.contains(e) ==> b0[i2].possibilities.contains(e)
                                } by {
                                    if i2 == n {
                                        assert forall|e: usize| new[i2].possibilities.contains(e) implies b0[i2].possibilities.contains(e) by {
                                            assert(cur[i2].possibilities.contains(e));
                                        }
                                    } else {
                                        assert(new[i2] == cur[i2]);
                                    }
                                }
                            }
                            assert(kept_order(b0, new)) by {
                                assert forall|j: int| 0 <= j < b0.len() implies kept_in_order(b0[j].possibilities, #[trigger] new[j].possibilities) by {
                                    if j == n {
                                        lemma_kept_filter(b0[j].possibilities, cur[j].possibilities, pred);
                                    } else {
                                        assert(new[j] == cur[j]);
                                    }
                                }
                            }
                            assert(removals_justified(protos@, b0, new)) by {
                                assert forall|j: int, e: usize|
                                    0 <= j < b0.len() && b0[j].possibilities.contains(e) && !(#[trigger] new[j].possibilities.contains(e))
                                    implies exists|m: int|
                                        0 <= m < new.len() && adjacent(new[j].position, new[m].position) && !#[trigger] supported_by(
                                            protos@,
                                            new[m].possibilities,
                                            direction_between(new[j].position, new[m].position),
                                        )(e) by {
                                    if j == n && cur[j].possibilities.contains(e) {
                                        let t = cur[n as int].possibilities.index_of(e);
                                        assert(cur[n as int].possibilities[t] == e);
                                        if pred(e) {
                                            cur[n as int].possibilities.lemma_filter_contains(pred, t);
                                        }
                                        assert(!pred(e));
                                        assert(new[i as int] == src@);
                                        assert(adjacent(new[j].position, new[i as int].position)) by {
                                            assert(adjacent(src.position, q));
                                        }
                                    } else {
                                        if j == n {
                                            assert forall|x: usize| new[j].possibilities.contains(x) implies cur[j].possibilities.contains(x) by {}
                                        }
                                        assert(!cur[j].possibilities.contains(e));
                                        let m = choose|m: int|
                                            0 <= m < cur.len() && adjacent(cur[j].position, cur[m].position) && !#[trigger] supported_by(
                                                protos@,
                                                cur[m].possibilities,
                                                direction_between(cur[j].position, cur[m].position),
                                            )(e);
                                        if m == n {
                                            lemma_unsupported_by_subset(protos@, cur[m].possibilities, new[m].possibilities, direction_between(cur[j].position, cur[m].position), e);
                                        }
                                        assert(new[m].position == cur[m].position);
                                        assert(new[j].position == cur[j].position);
                                    }
                                }
                            }
                            assert(cells_valid(protos@, new)) by {
                                assert forall|i2: int| 0 <= i2 < len implies indices_valid(protos@, #[trigger] new[i2].possibilities) by {
                                    if i2 != n {
                                        assert(new[i2] == cur[i2]);
                                    }
                                }
                            }
                        }
                    },
                    None => {
                        proof {
                            let pred = supported_by(protos@, src@.possibilities, direction_between(cur[n as int].position, src.position));
                            lemma_filter_full(cur[n as int].possibilities, pred);
                            assert forall|m: int|
                                0 <= m < k + 1 implies #[trigger] arc_ok(
                                    protos@,
                                    cur,
                                    i as int,
                                    crate::geometry::linear_at(range.size, range.start, nbrs@[m]),
                                ) by {
                                if m == k {
                                    assert(crate::geometry::linear_at(range.size, range.start, nbrs@[m]) == n);
                                }
                            }
                        }
                    },
                }
                k = k + 1;
            }
            proof {
                let cur = range@.books;
                assert forall|nb: int|
                    0 <= nb < cur.len() && adjacent(cur[i as int].position, cur[nb].position) implies #[trigger] arc_ok(
                    protos@,
                    cur,
                    i as int,
                    nb,
                ) by {
                    let q = cur[nb].position;
                    assert(in_box(q, range.start, range.end));
                    assert(nbrs@.contains(q));
                    let m = choose|m: int| 0 <= m < nbrs@.len() && nbrs@[m] == q;
                    assert(crate::geometry::linear_at(range.size, range.start, q) == nb);
                    assert(arc_ok(protos@, cur, i as int, crate::geometry::linear_at(range.size, range.start, nbrs@[m])));
                }
                assert(settled(protos@, cur, i as int));
                lemma_total_nonneg(range@.books, len);
                assert(7 * total_entropy(range@.books, len) + stack@.len() < 7 * e_pop + stack_before.len());
            }
        }
        Ok(())
    }
}

/// The final snapshots of the cells whose possibility count differs from `before_lens`.
fn collect_changes(books: &Vec<Cell>, before_lens: &Vec<usize>, Ghost(before): Ghost<Seq<CellView>>) -> (r: Vec<Cell>)
    requires
        books@.len() == before_lens@.len(),
        before.len() == before_lens@.len(),
        forall|i: int| 0 <= i < before.len() ==> #[trigger] before_lens@[i] == before[i].possibilities.len(),
    ensures
        r@.map_values(|c: Cell| c@) == changed_cells(before, books@.map_values(|c: Cell| c@), books@.len() as int),
{
    let ghost after = books@.map_values(|c: Cell| c@);
    let mut out: Vec<Cell> = Vec::new();
    let mut i: usize = 0;
    while i < books.len()
        invariant
            books@.len() == before_lens@.len(),
            before.len() == before_lens@.len(),
            after == books@.map_values(|c: Cell| c@),
            forall|k: int| 0 <= k < before.len() ==> #[trigger] before_lens@[k] == before[k].possibilities.len(),
            i <= books@.len(),
            out@.map_values(|c: Cell| c@) == changed_cells(before, after, i as int),
        decreases books@.len() - i,
    {
        if books[i].possibilities.len() != before_lens[i] {
            let c = books[i].duplicate();
            let ghost prev = out@;
            out.push(c);
            proof {
                assert(out@.map_values(|c: Cell| c@) =~= prev.map_values(|c: Cell| c@).push(after[i as int]));
            }
        }
        i = i + 1;
    }
    out
}

fn possibility_counts(books: &Vec<Cell>) -> (r: Vec<usize>)
    ensures
        r@.len() == books@.len(),
        forall|i: int| 0 <= i < r@.len() ==> #[trigger] r@[i] == books@[i].possibilities@.len(),
{
    let mut out: Vec<usize> = Vec::new();
    let mut i: usize = 0;
    while i < books.len()
        invariant
            i <= books@.len(),
            out@.len() == i,
            forall|k: int| 0 <= k < i ==> #[trigger] out@[k] == books@[k].possibilities@.len(),
        decreases books@.len() - i,
    {
        out.push(books[i].possibilities.len());
        i = i + 1;
    }
    out
}

impl Chunk {
    /// Propagates from every cell of the range once (flushes boundary implications
    /// inward). On success every cell of the range is consistent with all of its
    /// neighbours in the range. Returns the cells whose possibility count changed.
    pub fn propagate_all(&self, range: &mut Range, protos: &Vec<Prototype>) -> (res: Result<Vec<Cell>, ChunkError>)
        requires
            range_wf(old(range)@),
            cells_valid(protos@, old(range)@.books),
        ensures
            final(range).start == old(range).start,
            final(range).end == old(range).end,
            final(range).size == old(range).size,
            range_wf(final(range)@),
            cells_valid(protos@, final(range)@.books),
            shrunk(old(range)@.books, final(range)@.books),
            removals_justified(protos@, old(range)@.books, final(range)@.books),
            forall|i: int|
                0 <= i < final(range)@.books.len() && (#[trigger] final(range)@.books[i]).possibilities.len()
                    == 0 ==> old(range)@.books[i].possibilities.len() == 0,
            kept_order(old(range)@.books, final(range)@.books),
            res.is_ok() ==> forall|i: int|
                0 <= i < final(range)@.books.len() ==> #[trigger] settled(protos@, final(range)@.books, i),
            res matches Err(ChunkError::Overcollapsed(p)) ==> emptied_at(protos@, final(range)@.books, p),
            res.is_ok() ==> res.unwrap()@.map_values(|c: Cell| c@) == changed_cells(
                old(range)@.books,
                final(range)@.books,
                old(range)@.books.len() as int,
            ),
    {
        let ghost b0 = range@.books;
        let before = possibility_counts(&range.books);
        let n = range.books.len();
        let mut sources: Vec<usize> = Vec::new();
        let mut i: usize = 0;
        while i < n
            invariant
                n == range.books@.len(),
                i <= n,
                sources@.len() == i,
                forall|k: int| 0 <= k < i ==> #[trigger] sources@[k] == k,
            decreases n - i,
        {
            sources.push(i);
            i = i + 1;
        }
        let ghost src = sources@;
        self.propagate(range, protos, sources)?;
        proof {
            assert forall|i: int| 0 <= i < final(range)@.books.len() implies #[trigger] settled(protos@, range@.books, i) by {
                assert(src[i] == i as usize);
                assert(src.contains(i as usize));
            }
        }
        let changes = collect_changes(&range.books, &before, Ghost(b0));
        Ok(changes)
    }

    /// Propagates from the cells of the range at `cells` (positions outside the range are
    /// skipped): used to pull in what neighbouring chunks imply. On success each of those
    /// cells is consistent with all of its neighbours in the range. Returns the cells whose
    /// possibility count changed.
    pub fn propagate_from(&self, cells: Vec<Vec3i>, range: &mut Range, protos: &Vec<Prototype>) -> (res: Result<Vec<Cell>, ChunkError>)
        requires
            range_wf(old(range)@),
            cells_valid(protos@, old(range)@.books),
        ensures
            final(range).start == old(range).start,
            final(range).end == old(range).end,
            final(range).size == old(range).size,
            range_wf(final(range)@),
            cells_valid(protos@, final(range)@.books),
            shrunk(old(range)@.books, final(range)@.books),
            removals_justified(protos@, old(range)@.books, final(range)@.books),
            forall|i: int|
                0 <= i < final(range)@.books.len() && (#[trigger] final(range)@.books[i]).possibilities.len()
                    == 0 ==> old(range)@.books[i].possibilities.len() == 0,
            kept_order(old(range)@.books, final(range)@.books),
            res matches Err(ChunkError::Overcollapsed(p)) ==> emptied_at(protos@, final(range)@.books, p),
            res.is_ok() ==> forall|i: int|
                0 <= i < final(range)@.books.len() && cells@.contains(#[trigger] old(range)@.books[i].position)
                    ==> settled(protos@, final(range)@.books, i),
            res.is_ok() ==> res.unwrap()@.map_values(|c: Cell| c@) == changed_cells(
                old(range)@.books,
                final(range)@.books,
                old(range)@.books.len() as int,
            ),
    {
        let ghost b0 = range@.books;
        let before = possibility_counts(&range.books);
        let mut sources: Vec<usize> = Vec::new();
        let mut k: usize = 0;
        while k < cells.len()
            invariant
                range_wf(range@),
                range@.books == b0,
                k <= cells@.len(),
                forall|m: int| 0 <= m < sources@.len() ==> #[trigger] sources@[m] < b0.len(),
                forall|i: int| 0 <= i < b0.len() && (exists|m: int| 0 <= m < k && cells@[m] == #[trigger] b0[i].position) ==> sources@.contains(i as usize),
            decreases cells@.len() - k,
        {
            let p = cells[k];
            if range.contains(p) {
                let i = range.index(p);
                let ghost prev = sources@;
                sources.push(i);
                proof {
                    assert(range@.books[i as int].position == range.books@[i as int].position);
                    assert forall|j: int| 0 <= j < b0.len() && (exists|m: int| 0 <= m < k + 1 && cells@[m] == #[trigger] b0[j].position) implies sources@.contains(j as usize) by {
                        let m = choose|m: int| 0 <= m < k + 1 && cells@[m] == b0[j].position;
                        if m == k {
                            crate::library::lemma_box_position(range.size, range.start, b0, p);
                            assert(crate::geometry::linear_at(range.size, range.start, b0[j].position) == j);
                            assert(sources@[sources@.len() - 1] == j as usize);
                        } else {
                            assert(prev.contains(j as usize));
                            let w = choose|w: int| 0 <= w < prev.len() && prev[w] == j as usize;
                            assert(sources@[w] == j as usize);
                        }
                    }
                }
            } else {
                proof {
                    assert forall|j: int| 0 <= j < b0.len() && (exists|m: int| 0 <= m < k + 1 && cells@[m] == #[trigger] b0[j].position) implies sources@.contains(j as usize) by {
                        let m = choose|m: int| 0 <= m < k + 1 && cells@[m] == b0[j].position;
                        if m == k {
                            assert(in_box(b0[j].position, range.start, range.end));
                        }
                    }
                }
            }
            k = k + 1;
        }
        let ghost src = sources@;
        self.propagate(range, protos, sources)?;
        proof {
            assert forall|i: int|
                0 <= i < range@.books.len() && cells@.contains(#[trigger] b0[i].position) implies settled(protos@, range@.books, i) by {
                let m = choose|m: int| 0 <= m < cells@.len() && cells@[m] == b0[i].position;
                assert(src.contains(i as usize));
            }
        }
        let changes = collect_changes(&range.books, &before, Ghost(b0));
        Ok(changes)
    }

    /// The indices (into the range's cells, in order) of the open cells (more than one
    /// possibility) with the lowest effective entropy (see `effective_entropy`).
    pub fn select_lowest_entropy(&self, cells: &Vec<Cell>, ground_bias: u64) -> (r: Vec<usize>)
        ensures
            forall|k: int| 0 <= k < r@.len() ==> is_candidate(cells@.map_values(|c: Cell| c@), #[trigger] r@[k] as int, ground_bias as int),
            forall|i: int| is_candidate(cells@.map_values(|c: Cell| c@), i, ground_bias as int) ==> #[trigger] r@.contains(i as usize),
            forall|a: int, b: int| 0 <= a < b < r@.len() ==> r@[a] < r@[b],
            r@.len() == 0 <==> forall|i: int| 0 <= i < cells@.len() ==> (#[trigger] cells@[i]).possibilities@.len() <= 1,
    {
        let ghost cs = cells@.map_values(|c: Cell| c@);
        let mut lowest: u128 = 0;
        let mut found = false;
        let mut out: Vec<usize> = Vec::new();
        let mut i: usize = 0;
        while i < cells.len()
            invariant
                cs == cells@.map_values(|c: Cell| c@),
                i <= cells@.len(),
                found <==> exists|j: int| 0 <= j < i && (#[trigger] cs[j]).possibilities.len() > 1,
                found ==> forall|j: int| 0 <= j < i && (#[trigger] cs[j]).possibilities.len() > 1 ==> lowest <= effective_entropy(cs[j], ground_bias as int),
                found ==> exists|j: int| 0 <= j < i && (#[trigger] cs[j]).possibilities.len() > 1 && lowest == effective_entropy(cs[j], ground_bias as int),
                forall|k: int| 0 <= k < out@.len() ==> (#[trigger] out@[k]) < i && cs[out@[k] as int].possibilities.len() > 1 && effective_entropy(cs[out@[k] as int], ground_bias as int) == lowest,
                forall|j: int| 0 <= j < i && (#[trigger] cs[j]).possibilities.len() > 1 && effective_entropy(cs[j], ground_bias as int) == lowest ==> out@.contains(j as usize),
                forall|a: int, b: int| 0 <= a < b < out@.len() ==> out@[a] < out@[b],
            decreases cells@.len() - i,
        {
            let len = cells[i].possibilities.len();
            assert(cs[i as int].possibilities.len() == len);
            if len > 1 {
                let e: u128 = len as u128 + if cells[i].position.y == 0 { ground_bias as u128 } else { 0 };
                assert(e == effective_entropy(cs[i as int], ground_bias as int));
                if !found || e < lowest {
                    lowest = e;
                    found = true;
                    out = Vec::new();
                    out.push(i);
                    proof {
                        assert forall|j: int| 0 <= j < i + 1 && (#[trigger] cs[j]).possibilities.len() > 1 && effective_entropy(cs[j], ground_bias as int) == lowest implies out@.contains(j as usize) by {
                            if j < i {
                                assert(false);
                            }
                            assert(out@[0] == i);
                        }
                    }
                } else if e == lowest {
                    let ghost prev = out@;
                    out.push(i);
                    proof {
                        assert forall|j: int| 0 <= j < i + 1 && (#[trigger] cs[j]).possibilities.len() > 1 && effective_entropy(cs[j], ground_bias as int) == lowest implies out@.contains(j as usize) by {
                            if j < i {
                                assert(prev.contains(j as usize));
                                let w = choose|w: int| 0 <= w < prev.len() && prev[w] == j as usize;
                                assert(out@[w] == j as usize);
                            } else {
                                assert(out@[out@.len() - 1] == i);
                            }
                        }
                    }
                }
            }
            i = i + 1;
        }
        proof {
            if found {
                let j = choose|j: int| 0 <= j < cells@.len() && (#[trigger] cs[j]).possibilities.len() > 1 && lowest == effective_entropy(cs[j], ground_bias as int);
                assert(out@.contains(j as usize));
                assert(out@.len() > 0);
                assert(cs[j].possibilities == cells@[j].possibilities@);
                assert(cells@[j].possibilities@.len() > 1);
            } else {
                assert forall|i: int| 0 <= i < cells@.len() implies (#[trigger] cells@[i]).possibilities@.len() <= 1 by {
                    assert(cs[i].possibilities.len() == cells@[i].possibilities@.len());
                }
                if out@.len() > 0 {
                    assert(out@[0] < i);
                }
            }
            assert forall|i: int| is_candidate(cs, i, ground_bias as int) implies #[trigger] out@.contains(i as usize) by {
                let j = choose|j: int| 0 <= j < cells@.len() && (#[trigger] cs[j]).possibilities.len() > 1 && lowest == effective_entropy(cs[j], ground_bias as int);
                assert(effective_entropy(cs[i], ground_bias as int) <= effective_entropy(cs[j], ground_bias as int));
            }
            assert forall|k: int| 0 <= k < out@.len() implies is_candidate(cs, #[trigger] out@[k] as int, ground_bias as int) by {
                let t = out@[k] as int;
                assert forall|j: int| 0 <= j < cs.len() && (#[trigger] cs[j]).possibilities.len() > 1 implies effective_entropy(cs[t], ground_bias as int) <= effective_entropy(cs[j], ground_bias as int) by {
                }
            }
        }
        out
    }

    /// Collapses cell `index` of the range by the weighted draw `draw` (see
    /// `Cell::choose_weighted`), then propagates from it. Returns the cells whose
    /// possibility count changed, the collapsed one included.
    pub fn collapse_cell_at(&self, range: &mut Range, protos: &Vec<Prototype>, index: usize, draw: u64) -> (res: Result<Vec<Cell>, ChunkError>)
        requires
            range_wf(old(range)@),
            cells_valid(protos@, old(range)@.books),
            index < old(range).books@.len(),
            old(range).books@[index as int].possibilities@.len() > 0,
        ensures
            final(range).start == old(range).start,
            final(range).end == old(range).end,
            final(range).size == old(range).size,
            range_wf(final(range)@),
            cells_valid(protos@, final(range)@.books),
            res matches Err(ChunkError::Overcollapsed(p)) ==> emptied_at(protos@, final(range)@.books, p),
            res.is_ok() && old(range).books@[index as int].possibilities@.len() > 1 ==> res.unwrap()@.len() > 0,
            ({
                let k = crate::cell::weighted_pick(protos@, old(range).books@[index as int].possibilities@, draw as int);
                let picked = old(range).books@[index as int].possibilities@[k];
                let mid = old(range)@.books.update(index as int, CellView { possibilities: seq![picked], ..old(range)@.books[index as int] });
                &&& 0 <= k < old(range).books@[index as int].possibilities@.len()
                &&& shrunk(mid, final(range)@.books)
                &&& removals_justified(protos@, mid, final(range)@.books)
                &&& (res.is_ok() ==> settled(protos@, final(range)@.books, index as int))
                &&& (res.is_ok() ==> final(range)@.books[index as int].possibilities == seq![picked])
                &&& (res.is_ok() ==> forall|i: int| 0 <= i < mid.len() && (#[trigger] final(range)@.books[i]).possibilities.len() == 0
                    ==> mid[i].possibilities.len() == 0)
                &&& (res.is_ok() ==> forall|i: int| 0 <= i < mid.len() && #[trigger] settled(protos@, mid, i) ==> settled(protos@, final(range)@.books, i))
                &&& (res.is_ok() ==> res.unwrap()@.map_values(|c: Cell| c@) == changed_cells(
                    old(range)@.books,
                    final(range)@.books,
                    old(range)@.books.len() as int,
                ))
            }),
    {
        let ghost b0 = range@.books;
        let before = possibility_counts(&range.books);
        let ghost rv = range@;
        assert(b0[index as int] == range.books@[index as int]@);
        assert(indices_valid(protos@, b0[index as int].possibilities));
        let c = match range.books[index].collapsed_by_draw(protos, draw) {
            Some(c) => c,
            None => {
                assert(false);
                return Ok(Vec::new());
            },
        };
        let ghost k = crate::cell::weighted_pick(protos@, b0[index as int].possibilities, draw as int);
        range.books.set(index, c);
        proof {
            assert(range@.books =~= b0.update(index as int, c@));
            lemma_wf_same_positions(rv, range@);
            let picked = b0[index as int].possibilities[k];
            assert(indices_valid(protos@, seq![picked]));
            assert(cells_valid(protos@, range@.books)) by {
                assert forall|i2: int| 0 <= i2 < range@.books.len() implies indices_valid(protos@, #[trigger] range@.books[i2].possibilities) by {
                    if i2 != index {
                        assert(range@.books[i2] == b0[i2]);
                    }
                }
            }
        }
        let ghost mid = range@.books;
        let mut sources: Vec<usize> = Vec::new();
        sources.push(index);
        let ghost src = sources@;
        let r = self.propagate(range, protos, sources);
        proof {
            assert(src[0] == index);
            assert(src.contains(index));
        }
        match r {
            Err(e) => Err(e),
            Ok(()) => {
                let changes = collect_changes(&range.books, &before, Ghost(b0));
                proof {
                    let fin = range@.books;
                    let pk = b0[index as int].possibilities[k];
                    assert(mid[index as int].possibilities == seq![pk]);
                    assert(fin[index as int].possibilities.len() >= 1);
                    assert(fin[index as int].possibilities.len() <= 1);
                    let e0 = fin[index as int].possibilities[0];
                    assert(fin[index as int].possibilities.contains(e0));
                    assert(mid[index as int].possibilities.contains(e0));
                    assert(fin[index as int].possibilities =~= seq![pk]);
                    if b0[index as int].possibilities.len() > 1 {
                        assert(mid[index as int].possibilities.len() == 1);
                        assert(range@.books[index as int].possibilities.len() <= 1);
                        lemma_changed_nonempty(b0, range@.books, b0.len() as int, index as int);
                        assert(changes@.map_values(|c: Cell| c@).len() == changes@.len());
                    }
                }
                Ok(changes)
            },
        }
    }
}

proof fn lemma_changed_nonempty(before: Seq<CellView>, after: Seq<CellView>, n: int, i: int)
    requires
        0 <= i < n,
        after[i].possibilities.len() != before[i].possibilities.len(),
    ensures
        changed_cells(before, after, n).len() > 0,
    decreases n,
{
    if i < n - 1 {
        lemma_changed_nonempty(before, after, n - 1, i);
    }
}

proof fn lemma_shrunk_through_collapse(b0: Seq<CellView>, mid: Seq<CellView>, fin: Seq<CellView>, index: int, k: int)
    requires
        0 <= index < b0.len(),
        0 <= k < b0[index].possibilities.len(),
        mid == b0.update(index, CellView { possibilities: seq![b0[index].possibilities[k]], ..b0[index] }),
        shrunk(mid, fin),
    ensures
        shrunk(b0, fin),
{
    assert forall|i2: int| 0 <= i2 < b0.len() implies {
        &&& (#[trigger] fin[i2]).position == b0[i2].position
        &&& fin[i2].version == b0[i2].version
        &&& fin[i2].locked == b0[i2].locked
        &&& fin[i2].possibilities.len() <= b0[i2].possibilities.len()
        &&& forall|e: usize| fin[i2].possibilities.contains(e) ==> b0[i2].possibilities.contains(e)
    } by {
        assert(fin[i2].position == mid[i2].position);
        assert forall|e: usize| fin[i2].possibilities.contains(e) implies b0[i2].possibilities.contains(e) by {
            assert(mid[i2].possibilities.contains(e));
            if i2 == index {
                assert(seq![b0[index].possibilities[k]].contains(e));
                assert(e == b0[index].possibilities[k]);
            }
        }
    }
}

impl Chunk {
    /// One collapse step: picks uniformly (from `rng`) among the lowest-entropy open cells,
    /// collapses it by a weighted draw (from `rng`) and propagates. With no open cell left
    /// the chunk becomes Collapsed and `Done` is returned.
    pub fn collapse_next(&mut self, range: &mut Range, protos: &Vec<Prototype>, rng: &mut rand::rngs::StdRng) -> (res: Result<WorkerUpdateStatus, ChunkError>)
        requires
            range_wf(old(range)@),
            cells_valid(protos@, old(range)@.books),
        ensures
            final(range).start == old(range).start,
            final(range).end == old(range).end,
            final(range).size == old(range).size,
            range_wf(final(range)@),
            cells_valid(protos@, final(range)@.books),
            shrunk(old(range)@.books, final(range)@.books),
            (res matches Ok(WorkerUpdateStatus::Done)) <==> forall|i: int|
                0 <= i < old(range)@.books.len() ==> (#[trigger] old(range)@.books[i]).possibilities.len() <= 1,
            final(self).position == old(self).position,
            final(self).size == old(self).size,
            (res matches Ok(WorkerUpdateStatus::Done)) ==> final(self).state == ChunkState::Collapsed
                && final(range)@ == old(range)@,
            !(res matches Ok(WorkerUpdateStatus::Done)) ==> *final(self) == *old(self),
            !(res matches Ok(WorkerUpdateStatus::Done)) ==> exists|i: int|
                #[trigger] is_candidate(old(range)@.books, i, GROUND_BIAS as int)
                && (exists|k: int| 0 <= k < old(range)@.books[i].possibilities.len() && forall|e: usize|
                    final(range)@.books[i].possibilities.contains(e) ==> e == #[trigger] old(range)@.books[i].possibilities[k])
                && (res.is_ok() ==> final(range)@.books[i].possibilities.len() == 1)
                && (res.is_ok() ==> settled(protos@, final(range)@.books, i)),
            res.is_ok() ==> forall|i: int| 0 <= i < old(range)@.books.len() && (#[trigger] final(range)@.books[i]).possibilities.len() == 0
                ==> old(range)@.books[i].possibilities.len() == 0,
            res matches Ok(WorkerUpdateStatus::Changed(_)) ==> exists|i: int, k: int|
                #![trigger is_candidate(old(range)@.books, i, GROUND_BIAS as int), old(range)@.books[i].possibilities[k]]
                is_candidate(old(range)@.books, i, GROUND_BIAS as int) && 0 <= k < old(range)@.books[i].possibilities.len()
                && final(range)@.books[i].possibilities == seq![old(range)@.books[i].possibilities[k]],
            res matches Ok(WorkerUpdateStatus::Error(_)) ==> false,
            res matches Err(ChunkError::Overcollapsed(p)) ==> emptied_at(protos@, final(range)@.books, p),
            res matches Ok(WorkerUpdateStatus::Changed(list)) ==> list@.len() > 0 && list@.map_values(|c: Cell| c@)
                == changed_cells(old(range)@.books, final(range)@.books, old(range)@.books.len() as int),
    {
        let ghost b0 = range@.books;
        let candidates = self.select_lowest_entropy(&range.books, GROUND_BIAS);
        assert(b0 == range.books@.map_values(|c: Cell| c@));
        if candidates.len() == 0 {
            proof {
                assert forall|i: int| 0 <= i < b0.len() implies (#[trigger] b0[i]).possibilities.len() <= 1 by {
                    assert(range.books@[i].possibilities@.len() <= 1);
                }
            }
            self.state = ChunkState::Collapsed;
            return Ok(WorkerUpdateStatus::Done);
        }
        let pick = draw_below(rng, candidates.len() as u64) as usize;
        let index = candidates[pick];
        assert(is_candidate(b0, index as int, GROUND_BIAS as int));
        assert(b0[index as int] == range.books@[index as int]@);
        assert(indices_valid(protos@, b0[index as int].possibilities));
        let total = range.books[index].total_weight(protos);
        let draw = if total > 0 {
            draw_below(rng, total)
        } else {
            0
        };
        let ghost k = crate::cell::weighted_pick(protos@, b0[index as int].possibilities, draw as int);
        let r = self.collapse_cell_at(range, protos, index, draw);
        proof {
            let picked = b0[index as int].possibilities[k];
            let mid = b0.update(index as int, CellView { possibilities: seq![picked], ..b0[index as int] });
            lemma_shrunk_through_collapse(b0, mid, range@.books, index as int, k);
            assert forall|e: usize| range@.books[index as int].possibilities.contains(e) implies e == b0[index as int].possibilities[k] by {
                assert(mid[index as int].possibilities.contains(e));
            }
            if r.is_ok() {
                assert(range@.books[index as int].possibilities == seq![picked]);
            }
        }
        match r {
            Ok(changes) => Ok(WorkerUpdateStatus::Changed(changes)),
            Err(e) => Err(e),
        }
    }
}

/// The top layer of a chunk, clamped to the map.
pub open spec fn chunk_top(c: Chunk, map_size: Vec3i) -> int {
    let top = c.position.y + c.size.y;
    (if top < map_size.y {
        top
    } else {
        map_size.y as int
    }) - 1
}

/// Applies the boundary rules of `edge_filtered` to `list` in place.
pub fn apply_edge_rules(
    protos: &Vec<Prototype>,
    list: &mut Vec<usize>,
    p: Vec3i,
    map_size: Vec3i,
    top_y: i64,
)
    requires
        indices_valid(protos@, old(list)@),
    ensures
        final(list)@ == edge_filtered(protos@, old(list)@, p, map_size, top_y as int),
        indices_valid(protos@, final(list)@),
{
    let ghost l0 = list@;
    if p.y == 0 {
        Prototype::retain_uncapped(protos, list, Vec3i { x: 0, y: -1, z: 0 });
        proof { lemma_filter_valid(protos@, l0, is_uncapped(protos@, down())); }
    } else {
        let tag = bottom_tag_string();
        Prototype::retain_not_constrained(protos, list, &tag);
        proof { lemma_filter_valid(protos@, l0, not_constrained(protos@, bottom_tag())); }
    }
    let ghost l1 = list@;
    if p.y as i64 == top_y {
        Prototype::retain_uncapped(protos, list, Vec3i { x: 0, y: 1, z: 0 });
        proof { lemma_filter_valid(protos@, l1, is_uncapped(protos@, up())); }
    }
    let ghost l2 = list@;
    if p.x == 0 {
        Prototype::retain_uncapped(protos, list, Vec3i { x: -1, y: 0, z: 0 });
        proof { lemma_filter_valid(protos@, l2, is_uncapped(protos@, left())); }
    }
    let ghost l3 = list@;
    if p.x as i64 == map_size.x as i64 - 1 {
        Prototype::retain_uncapped(protos, list, Vec3i { x: 1, y: 0, z: 0 });
        proof { lemma_filter_valid(protos@, l3, is_uncapped(protos@, right())); }
    }
    let ghost l4 = list@;
    if p.z == 0 {
        Prototype::retain_uncapped(protos, list, Vec3i { x: 0, y: 0, z: -1 });
        proof { lemma_filter_valid(protos@, l4, is_uncapped(protos@, forward())); }
    }
    let ghost l5 = list@;
    if p.z as i64 == map_size.z as i64 - 1 {
        Prototype::retain_uncapped(protos, list, Vec3i { x: 0, y: 0, z: 1 });
        proof { lemma_filter_valid(protos@, l5, is_uncapped(protos@, back())); }
    }
}

} // verus!

use vstd::prelude::*;

use crate::cell::{direction_between, Cell, CellView};
use crate::geometry::{adjacent, in_box, Vec3i};
use crate::kernel::cells_valid;
use crate::library::{check_out_allowed, checked_out, library_wf, origin, range_wf, Library3D, LibraryView, RangeView};
use crate::messages::EngineError;
use crate::prototype::{empty_id, empty_id_string, indices_valid, Prototype};

verus! {

/// Outcome of a prune pass.
pub enum PruneResult {
    /// These cells were replaced by the empty tile.
    Pruned(Vec<Cell>),
    /// Nothing was unreachable.
    NoEffect,
    Error(EngineError),
}

/// Replaces collapsed cells that cannot be reached from the ground ring with the empty
/// tile.
pub struct MapValidator {}

/// The face descriptor of `p` toward direction `d`: `(1,0,0)` reads `pos_x`, `(-1,0,0)`
/// `neg_x`, `(0,1,0)` `pos_z`, `(0,-1,0)` `neg_z`, `(0,0,-1)` `pos_y`, `(0,0,1)` `neg_y`
/// (the catalogue's own axes, as for the adjacency lists); empty for any other direction.
pub open spec fn slot_spec(p: Prototype, d: Vec3i) -> Seq<char> {
    if d == (Vec3i { x: 1, y: 0, z: 0 }) {
        p.pos_x@
    } else if d == (Vec3i { x: -1i32, y: 0, z: 0 }) {
        p.neg_x@
    } else if d == (Vec3i { x: 0, y: 1, z: 0 }) {
        p.pos_z@
    } else if d == (Vec3i { x: 0, y: -1i32, z: 0 }) {
        p.neg_z@
    } else if d == (Vec3i { x: 0, y: 0, z: -1i32 }) {
        p.pos_y@
    } else if d == (Vec3i { x: 0, y: 0, z: 1 }) {
        p.neg_y@
    } else {
        Seq::empty()
    }
}

/// The catalogue's markers of a face that connects to nothing.
pub open spec fn empty_slot(s: Seq<char>) -> bool {
    s == seq!['-', '1'] || s == seq!['-', '1', 'f']
}

/// Collapsed to one prototype that is not the empty tile.
pub open spec fn solid(protos: Seq<Prototype>, c: CellView) -> bool {
    c.possibilities.len() == 1 && protos[c.possibilities[0] as int].id@ != empty_id()
}

/// A solid cell on the ground layer along the map's x or z faces.
pub open spec fn seed(protos: Seq<Prototype>, cells: Seq<CellView>, size: Vec3i, i: int) -> bool {
    let p = cells[i].position;
    &&& 0 <= i < cells.len()
    &&& p.y == 0
    &&& (p.x == 0 || p.x == size.x - 1 || p.z == 0 || p.z == size.z - 1)
    &&& solid(protos, cells[i])
}

/// The traversal moves from solid cell `a` to the collapsed neighbour `b` through a face of
/// `a` that is not empty.
pub open spec fn step(protos: Seq<Prototype>, cells: Seq<CellView>, a: int, b: int) -> bool {
    &&& 0 <= a < cells.len()
    &&& 0 <= b < cells.len()
    &&& solid(protos, cells[a])
    &&& cells[b].possibilities.len() == 1
    &&& adjacent(cells[a].position, cells[b].position)
    &&& !empty_slot(
        slot_spec(
            protos[cells[a].possibilities[0] as int],
            direction_between(cells[a].position, cells[b].position),
        ),
    )
}

/// `path` starts at a seed and moves by steps.
pub open spec fn is_path(protos: Seq<Prototype>, cells: Seq<CellView>, size: Vec3i, path: Seq<int>) -> bool {
    &&& path.len() > 0
    &&& seed(protos, cells, size, path[0])
    &&& forall|k: int| 0 <= k < path.len() - 1 ==> #[trigger] step(protos, cells, path[k], path[k + 1])
}

/// Some path from a seed ends at cell `i`.
pub open spec fn reachable(protos: Seq<Prototype>, cells: Seq<CellView>, size: Vec3i, i: int) -> bool {
    exists|path: Seq<int>| #[trigger] is_path(protos, cells, size, path) && path.last() == i
}

/// What a prune makes of the possibilities of cell `i`: the empty tile `unit` for a solid
/// cell that is not reachable, else what it had.
pub open spec fn pruned(protos: Seq<Prototype>, cells: Seq<CellView>, size: Vec3i, unit: usize, i: int) -> Seq<usize> {
    if solid(protos, cells[i]) && !reachable(protos, cells, size, i) {
        seq![unit]
    } else {
        cells[i].possibilities
    }
}

/// The positions, in store order, of the first `n` cells that a prune replaces.
pub open spec fn pruned_positions(protos: Seq<Prototype>, cells: Seq<CellView>, size: Vec3i, n: int) -> Seq<Vec3i>
    decreases n,
{
    if n <= 0 {
        Seq::empty()
    } else {
        let prev = pruned_positions(protos, cells, size, n - 1);
        if solid(protos, cells[n - 1]) && !reachable(protos, cells, size, n - 1) {
            prev.push(cells[n - 1].position)
        } else {
            prev
        }
    }
}

/// The one catalogue entry whose id is the empty tile's.
pub open spec fn unit_index(protos: Seq<Prototype>, u: int) -> bool {
    &&& 0 <= u < protos.len()
    &&& protos[u].id@ == empty_id()
    &&& forall|k: int| 0 <= k < protos.len() && k != u ==> (#[trigger] protos[k]).id@ != empty_id()
}

/// The face descriptor of `p` toward `d` (see `slot_spec`).
pub fn get_slot(p: &Prototype, d: Vec3i) -> (r: &String)
    requires
        slot_spec(*p, d).len() > 0 || d == (Vec3i { x: 1, y: 0, z: 0 }) || d == (Vec3i { x: -1i32, y: 0, z: 0 }) || d == (Vec3i { x: 0, y: 1, z: 0 }) || d == (Vec3i { x: 0, y: -1i32, z: 0 }) || d == (Vec3i { x: 0, y: 0, z: -1i32 }) || d == (Vec3i { x: 0, y: 0, z: 1 }),
    ensures
        r@ == slot_spec(*p, d),
{
    if d.x == 1 && d.y == 0 && d.z == 0 {
        &p.pos_x
    } else if d.x == -1 && d.y == 0 && d.z == 0 {
        &p.neg_x
    } else if d.x == 0 && d.y == 1 && d.z == 0 {
        &p.pos_z
    } else if d.x == 0 && d.y == -1 && d.z == 0 {
        &p.neg_z
    } else if d.x == 0 && d.y == 0 && d.z == -1 {
        &p.pos_y
    } else {
        &p.neg_y
    }
}

fn is_empty_slot(s: &String) -> (r: bool)
    ensures
        r == empty_slot(s@),
{
    let a = "-1";
    let b = "-1f";
    proof {
        reveal_strlit("-1");
        reveal_strlit("-1f");
    }
    let a = a.to_owned();
    let b = b.to_owned();
    assert(a@ == seq!['-', '1']);
    assert(b@ == seq!['-', '1', 'f']);
    *s == a || *s == b
}

/// A set of cells that holds every seed and is closed under steps holds the end of every
/// path.
proof fn lemma_closed_covers(protos: Seq<Prototype>, cells: Seq<CellView>, size: Vec3i, visited: Seq<bool>, path: Seq<int>)
    requires
        visited.len() == cells.len(),
        forall|s: int| #[trigger] seed(protos, cells, size, s) ==> visited[s],
        forall|a: int, b: int| 0 <= a < cells.len() && visited[a] && #[trigger] step(protos, cells, a, b) ==> visited[b],
        is_path(protos, cells, size, path),
    ensures
        0 <= path.last() < cells.len() && visited[path.last()],
    decreases path.len(),
{
    if path.len() > 1 {
        let prefix = path.drop_last();
        assert forall|k: int| 0 <= k < prefix.len() - 1 implies #[trigger] step(protos, cells, prefix[k], prefix[k + 1]) by {
            assert(step(protos, cells, path[k], path[k + 1]));
        }
        lemma_closed_covers(protos, cells, size, visited, prefix);
        let k = path.len() - 2;
        assert(step(protos, cells, path[k], path[k + 1]));
        assert(prefix.last() == path[k]);
    }
}

/// Number of `true` entries among the first `n`.
pub open spec fn count_true(s: Seq<bool>, n: int) -> int
    decreases n,
{
    if n <= 0 {
        0
    } else {
        count_true(s, n - 1) + if s[n - 1] {
            1int
        } else {
            0int
        }
    }
}

proof fn lemma_count_set(s: Seq<bool>, n: int, b: int)
    requires
        0 <= b < n <= s.len(),
        !s[b],
    ensures
        count_true(s.update(b, true), n) == count_true(s, n) + 1,
    decreases n,
{
    if n - 1 > b {
        lemma_count_set(s, n - 1, b);
    } else {
        lemma_count_same(s, s.update(b, true), n - 1);
    }
}

proof fn lemma_count_same(s: Seq<bool>, t: Seq<bool>, n: int)
    requires
        0 <= n <= s.len(),
        n <= t.len(),
        forall|i: int| 0 <= i < n ==> s[i] == t[i],
    ensures
        count_true(s, n) == count_true(t, n),
    decreases n,
{
    if n > 0 {
        lemma_count_same(s, t, n - 1);
    }
}

proof fn lemma_count_bound(s: Seq<bool>, n: int)
    requires
        0 <= n,
    ensures
        0 <= count_true(s, n) <= n,
    decreases n,
{
    if n > 0 {
        lemma_count_bound(s, n - 1);
    }
}

impl MapValidator {
    pub fn new() -> (r: MapValidator) {
        MapValidator {}
    }

    /// The flood fill over the cells of `range`: marks every cell reachable from the seeds
    /// of a map of extent `map_size` (see `reachable`), and no other.
    #[verifier::rlimit(50)]
    pub fn mark_reachable(&self, range: &crate::library::Range, protos: &Vec<Prototype>, map_size: Vec3i) -> (visited: Vec<bool>)
        requires
            range_wf(range@),
            cells_valid(protos@, range@.books),
        ensures
            visited@.len() == range@.books.len(),
            forall|i: int| 0 <= i < range@.books.len() ==> (#[trigger] visited@[i] <==> reachable(protos@, range@.books, map_size, i)),
    {
        let ghost cs = range@.books;
        let n = range.books.len();
        let empty = empty_id_string();
        let mut visited: Vec<bool> = Vec::new();
        let mut stack: Vec<usize> = Vec::new();
        let mut i: usize = 0;
        while i < n
            invariant
                n == cs.len(),
                cs == range@.books,
                cells_valid(protos@, cs),
                empty@ == empty_id(),
                i <= n,
                visited@.len() == i,
                forall|k: int| 0 <= k < stack@.len() ==> (#[trigger] stack@[k]) < i && visited@[stack@[k] as int] && solid(protos@, cs[stack@[k] as int]),
                forall|k: int| 0 <= k < i ==> (#[trigger] visited@[k] <==> seed(protos@, cs, map_size, k)),
                forall|k: int| 0 <= k < i && #[trigger] visited@[k] ==> stack@.contains(k as usize),
            decreases n - i,
        {
            assert(cs[i as int] == range.books@[i as int]@);
            let p = range.books[i].position;
            let mut is_seed = false;
            if p.y == 0 && (p.x == 0 || p.x as i64 == map_size.x as i64 - 1 || p.z == 0 || p.z as i64 == map_size.z as i64 - 1) && range.books[i].possibilities.len() == 1 {
                assert(indices_valid(protos@, cs[i as int].possibilities));
                let u = range.books[i].possibilities[0];
                if !(protos[u].id == empty) {
                    is_seed = true;
                }
            }
            visited.push(is_seed);
            if is_seed {
                let ghost prev = stack@;
                stack.push(i);
                proof {
                    assert forall|k: int| 0 <= k < i + 1 && #[trigger] visited@[k] implies stack@.contains(k as usize) by {
                        if k < i {
                            assert(prev.contains(k as usize));
                            let w = choose|w: int| 0 <= w < prev.len() && prev[w] == k as usize;
                            assert(stack@[w] == k as usize);
                        } else {
                            assert(stack@[stack@.len() - 1] == k as usize);
                        }
                    }
                }
            }
            i = i + 1;
        }
        proof {
            assert forall|k: int| 0 <= k < n && #[trigger] visited@[k] implies reachable(protos@, cs, map_size, k) by {
                let path = seq![k];
                assert(is_path(protos@, cs, map_size, path));
            }
            assert forall|a: int, b: int| 0 <= a < n && visited@[a] && !stack@.contains(a as usize) && #[trigger] step(protos@, cs, a, b) implies visited@[b] by {
            }
        }
        while stack.len() > 0
            invariant
                n == cs.len(),
                cs == range@.books,
                range_wf(range@),
                cells_valid(protos@, cs),
                empty@ == empty_id(),
                visited@.len() == n,
                forall|k: int| 0 <= k < stack@.len() ==> (#[trigger] stack@[k]) < n && visited@[stack@[k] as int] && solid(protos@, cs[stack@[k] as int]),
                forall|s: int| #[trigger] seed(protos@, cs, map_size, s) ==> visited@[s],
                forall|k: int| 0 <= k < n && #[trigger] visited@[k] ==> reachable(protos@, cs, map_size, k),
                forall|a: int, b: int| 0 <= a < n && visited@[a] && !stack@.contains(a as usize) && #[trigger] step(protos@, cs, a, b) ==> visited@[b],
            decreases 2 * (n - count_true(visited@, n as int)) + stack@.len(),
        {
            proof {
                lemma_count_bound(visited@, n as int);
            }
            let ghost stack_before = stack@;
            let ghost vis_before = visited@;
            let a = stack.pop().unwrap();
            proof {
                assert(stack_before == stack@.push(a));
                assert(stack_before[stack_before.len() - 1] == a);
                assert forall|x: int| 0 <= x < n && x != a && #[trigger] stack_before.contains(x as usize) implies stack@.contains(x as usize) by {
                    let w = choose|w: int| 0 <= w < stack_before.len() && stack_before[w] == x as usize;
                    if w == stack_before.len() - 1 {
                        assert(x as usize == a);
                    }
                    assert(stack@[w] == x as usize);
                }
            }
            assert(cs[a as int] == range.books@[a as int]@);
            assert(indices_valid(protos@, cs[a as int].possibilities));
            let pa = range.books[a].position;
            let proto = &protos[range.books[a].possibilities[0]];
            let nbrs = range.get_neighbors(pa);
            let mut k: usize = 0;
            #[verifier::loop_isolation(false)]
            while k < nbrs.len()
                invariant
                    visited@.len() == n,
                    0 <= a < n,
                    k <= nbrs@.len(),
                    forall|m: int| 0 <= m < stack@.len() ==> (#[trigger] stack@[m]) < n && visited@[stack@[m] as int] && solid(protos@, cs[stack@[m] as int]),
                    forall|x: int| 0 <= x < n && vis_before[x] ==> #[trigger] visited@[x],
                    forall|m: int| 0 <= m < n && #[trigger] visited@[m] ==> reachable(protos@, cs, map_size, m),
                    forall|x: int, b: int| 0 <= x < n && x != a && visited@[x] && !stack@.contains(x as usize) && #[trigger] step(protos@, cs, x, b) ==> visited@[b],
                    forall|x: int| 0 <= x < stack_before.len() - 1 ==> stack@.contains(#[trigger] stack_before[x]),
                    forall|m: int| 0 <= m < k ==> {
                        let b = crate::geometry::linear_at(range.size, range.start, #[trigger] nbrs@[m]);
                        step(protos@, cs, a as int, b) ==> visited@[b]
                    },
                    2 * (n - count_true(visited@, n as int)) + stack@.len() < 2 * (n - count_true(vis_before, n as int)) + stack_before.len(),
                decreases nbrs@.len() - k,
            {
                let q = nbrs[k];
                let b = range.index(q);
                assert(cs[b as int] == range.books@[b as int]@);
                if !visited[b] && range.books[b].possibilities.len() == 1 {
                    let d = crate::cell::direction_from(pa, q);
                    let slot = get_slot(proto, d);
                    if !is_empty_slot(slot) {
                        let ghost before_set = visited@;
                        visited.set(b, true);
                        proof {
                            lemma_count_set(before_set, n as int, b as int);
                            assert(step(protos@, cs, a as int, b as int));
                            let pa_path = choose|path: Seq<int>| #[trigger] is_path(protos@, cs, map_size, path) && path.last() == a as int;
                            let pb_path = pa_path.push(b as int);
                            assert forall|t: int| 0 <= t < pb_path.len() - 1 implies #[trigger] step(protos@, cs, pb_path[t], pb_path[t + 1]) by {
                                if t < pa_path.len() - 1 {
                                    assert(step(protos@, cs, pa_path[t], pa_path[t + 1]));
                                }
                            }
                            assert(is_path(protos@, cs, map_size, pb_path));
                        }
                        assert(indices_valid(protos@, cs[b as int].possibilities));
                        let ub = range.books[b].possibilities[0];
                        if protos[ub].id == empty {
                            assert(!solid(protos@, cs[b as int]));
                            assert forall|x: int, y: int| 0 <= x < n && x != a && visited@[x] && !stack@.contains(x as usize) && #[trigger] step(protos@, cs, x, y) implies visited@[y] by {
                                if x != b {
                                    assert(before_set[x]);
                                }
                            }
                        } else {
                            assert(solid(protos@, cs[b as int]));
                            let ghost prev = stack@;
                            stack.push(b);
                            proof {
                                assert forall|x: int| 0 <= x < stack_before.len() - 1 implies stack@.contains(#[trigger] stack_before[x]) by {
                                    assert(prev.contains(stack_before[x]));
                                    let w = choose|w: int| 0 <= w < prev.len() && prev[w] == stack_before[x];
                                    assert(stack@[w] == stack_before[x]);
                                }
                                assert(stack@[stack@.len() - 1] == b);
                                assert forall|x: int, y: int| 0 <= x < n && x != a && visited@[x] && !stack@.contains(x as usize) && #[trigger] step(protos@, cs, x, y) implies visited@[y] by {
                                    if x == b {
                                        assert(stack@.contains(b));
                                    } else {
                                        assert(before_set[x]);
                                        if prev.contains(x as usize) {
                                            let w = choose|w: int| 0 <= w < prev.len() && prev[w] == x as usize;
                                            assert(stack@[w] == x as usize);
                                        }
                                    }
                                }
                            }
                        }
                    }
                }
                k = k + 1;
            }
            proof {
                lemma_count_bound(visited@, n as int);
                assert(2 * (n - count_true(visited@, n as int)) + stack@.len() < 2 * (n - count_true(vis_before, n as int)) + stack_before.len());
                assert forall|b: int| #[trigger] step(protos@, cs, a as int, b) implies visited@[b] by {
                    let q = cs[b].position;
                    assert(in_box(q, range.start, range.end));
                    assert(nbrs@.contains(q));
                    let m = choose|m: int| 0 <= m < nbrs@.len() && nbrs@[m] == q;
                    crate::library::lemma_box_position(range.size, range.start, cs, q);
                }
            }
        }
        proof {
            assert forall|i: int| 0 <= i < n implies (#[trigger] visited@[i] <==> reachable(protos@, cs, map_size, i)) by {
                if reachable(protos@, cs, map_size, i) {
                    let path = choose|path: Seq<int>| #[trigger] is_path(protos@, cs, map_size, path) && path.last() == i;
                    lemma_closed_covers(protos@, cs, map_size, visited@, path);
                }
            }
        }
        visited
    }
}

/// Reachability reads only positions and possibilities.
proof fn lemma_reachable_congruent(protos: Seq<Prototype>, c1: Seq<CellView>, c2: Seq<CellView>, size: Vec3i)
    requires
        c1.len() == c2.len(),
        forall|i: int| 0 <= i < c1.len() ==> (#[trigger] c1[i]).position == c2[i].position && c1[i].possibilities == c2[i].possibilities,
    ensures
        forall|i: int| reachable(protos, c1, size, i) == #[trigger] reachable(protos, c2, size, i),
{
    assert forall|a: int, b: int| #[trigger] step(protos, c1, a, b) == step(protos, c2, a, b) by {
        if 0 <= a < c1.len() && 0 <= b < c1.len() {
            assert(c1[a].position == c2[a].position && c1[a].possibilities == c2[a].possibilities);
            assert(c1[b].position == c2[b].position && c1[b].possibilities == c2[b].possibilities);
        }
    }
    assert forall|s: int| #[trigger] seed(protos, c1, size, s) == seed(protos, c2, size, s) by {
        if 0 <= s < c1.len() {
            assert(c1[s].position == c2[s].position && c1[s].possibilities == c2[s].possibilities);
        }
    }
    assert forall|path: Seq<int>| #[trigger] is_path(protos, c1, size, path) == is_path(protos, c2, size, path) by {
        if path.len() > 0 {
            assert(seed(protos, c1, size, path[0]) == seed(protos, c2, size, path[0]));
            if is_path(protos, c1, size, path) {
                assert forall|k: int| 0 <= k < path.len() - 1 implies #[trigger] step(protos, c2, path[k], path[k + 1]) by {
                    assert(step(protos, c1, path[k], path[k + 1]));
                }
            }
            if is_path(protos, c2, size, path) {
                assert forall|k: int| 0 <= k < path.len() - 1 implies #[trigger] step(protos, c1, path[k], path[k + 1]) by {
                    assert(step(protos, c2, path[k], path[k + 1]));
                }
            }
        }
    }
    assert forall|i: int| reachable(protos, c1, size, i) == #[trigger] reachable(protos, c2, size, i) by {
        if reachable(protos, c1, size, i) {
            let p = choose|path: Seq<int>| #[trigger] is_path(protos, c1, size, path) && path.last() == i;
            assert(is_path(protos, c2, size, p));
        }
        if reachable(protos, c2, size, i) {
            let p = choose|path: Seq<int>| #[trigger] is_path(protos, c2, size, path) && path.last() == i;
            assert(is_path(protos, c1, size, p));
        }
    }
}

/// Checking out the whole map yields its cells in store order.
proof fn lemma_whole_map(l0: LibraryView, r: RangeView, l1: LibraryView)
    requires
        library_wf(l0),
        checked_out(l0, origin(), l0.size, r, l1),
    ensures
        r.books.len() == l1.books.len(),
        r.size == l0.size,
        r.start == origin(),
        r.end == l0.size,
        forall|j: int| 0 <= j < r.books.len() ==> #[trigger] r.books[j] == l1.books[j],
        forall|j: int| 0 <= j < l0.books.len() ==> #[trigger] l1.books[j] == (CellView { locked: true, ..l0.books[j] }),
{
    assert(r.end == l0.size);
    assert(r.size == l0.size);
    assert forall|j: int| 0 <= j < r.books.len() implies #[trigger] r.books[j] == l1.books[j] by {
        let p = r.books[j].position;
        assert(crate::library::store_index(l0, p) == j);
    }
    assert forall|j: int| 0 <= j < l0.books.len() implies #[trigger] l1.books[j] == (CellView { locked: true, ..l0.books[j] }) by {
        assert(in_box(l0.books[j].position, origin(), l0.size));
    }
}

impl MapValidator {
    /// Replaces every collapsed cell whose prototype is not the empty tile, and that no
    /// path of steps reaches from the ground ring, with the empty tile. The whole map is
    /// checked out for the pass and checked back in. `Error` when the catalogue does not
    /// hold exactly one empty tile (nothing is touched then) or the store refuses.
    pub fn prune_dead_cells(&self, director: &crate::director::MapDirector, library: &mut Library3D) -> (res: PruneResult)
        requires
            crate::director::director_wf(*director, old(library)@),
        ensures
            crate::director::director_wf(*director, final(library)@),
            (res matches PruneResult::Error(EngineError::EmptyTileMissing)) <==> !exists|u: int| unit_index(director.proto_data@, u),
            (res matches PruneResult::Error(EngineError::Library(_))) <==> (exists|u: int| unit_index(director.proto_data@, u))
                && (!check_out_allowed(old(library)@, origin(), old(library)@.size) || old(library)@.next_version == u64::MAX),
            res matches PruneResult::Error(_) ==> final(library)@ == old(library)@,
            res matches PruneResult::Error(e) ==> (e is EmptyTileMissing || e is Library),
            final(library)@.books.len() == old(library)@.books.len(),
            forall|i: int| 0 <= i < old(library)@.books.len() ==> (#[trigger] final(library)@.books[i]).locked == old(library)@.books[i].locked,
            !(res matches PruneResult::Error(_)) ==> exists|u: int| {
                &&& unit_index(director.proto_data@, u)
                &&& forall|i: int| 0 <= i < old(library)@.books.len() ==> (#[trigger] final(library)@.books[i]).possibilities
                    == pruned(director.proto_data@, old(library)@.books, director.map_size, u as usize, i)
                &&& ((res matches PruneResult::NoEffect) <==> forall|i: int| 0 <= i < old(library)@.books.len() ==> !(solid(director.proto_data@, #[trigger] old(library)@.books[i])
                    && !reachable(director.proto_data@, old(library)@.books, director.map_size, i)))
                &&& (res matches PruneResult::Pruned(list) ==> list@.map_values(|c: Cell| c.position) == pruned_positions(
                    director.proto_data@, old(library)@.books, director.map_size, old(library)@.books.len() as int)
                    && forall|k: int| 0 <= k < list@.len() ==> (#[trigger] list@[k]).possibilities@ == seq![u as usize])
            },
    {
        let protos = &director.proto_data;
        let ghost l0 = library@;
        let empty = empty_id_string();
        let mut unit: usize = 0;
        let mut found: usize = 0;
        let mut k: usize = 0;
        while k < protos.len()
            invariant
                empty@ == empty_id(),
                k <= protos@.len(),
                found <= k,
                found == 0 ==> forall|m: int| 0 <= m < k ==> (#[trigger] protos@[m]).id@ != empty_id(),
                found >= 1 ==> unit < k && protos@[unit as int].id@ == empty_id() && forall|m: int| 0 <= m < unit ==> (#[trigger] protos@[m]).id@ != empty_id(),
                found == 1 ==> forall|m: int| 0 <= m < k && m != unit ==> (#[trigger] protos@[m]).id@ != empty_id(),
                found >= 2 ==> exists|m: int| 0 <= m < k && m != unit && (#[trigger] protos@[m]).id@ == empty_id(),
            decreases protos@.len() - k,
        {
            if protos[k].id == empty {
                if found == 0 {
                    unit = k;
                }
                found = found + 1;
            }
            k = k + 1;
        }
        if found != 1 {
            proof {
                if found >= 2 {
                    let m = choose|m: int| 0 <= m < protos@.len() && m != unit && (#[trigger] protos@[m]).id@ == empty_id();
                    assert forall|u: int| !unit_index(protos@, u) by {
                        if unit_index(protos@, u) {
                            if u != unit as int {
                                assert(protos@[unit as int].id@ == empty_id());
                            } else {
                                assert(protos@[m].id@ == empty_id());
                            }
                        }
                    }
                }
            }
            return PruneResult::Error(EngineError::EmptyTileMissing);
        }
        assert(unit_index(protos@, unit as int));
        if library.next_version == u64::MAX {
            return PruneResult::Error(EngineError::Library(crate::library::LibraryError::VersionsExhausted));
        }
        let mut range = match library.check_out_range(Vec3i { x: 0, y: 0, z: 0 }, library.size) {
            Ok(r) => r,
            Err(e) => return PruneResult::Error(EngineError::Library(e)),
        };
        let ghost l1 = library@;
        proof {
            lemma_whole_map(l0, range@, l1);
            assert(range@.books =~= l1.books);
            assert(cells_valid(protos@, range@.books)) by {
                assert forall|i: int| 0 <= i < range@.books.len() implies indices_valid(protos@, #[trigger] range@.books[i].possibilities) by {
                    assert(indices_valid(protos@, l0.books[i].possibilities));
                }
            }
            lemma_reachable_congruent(protos@, l0.books, range@.books, director.map_size);
        }
        let visited = self.mark_reachable(&range, protos, library.size);
        let ghost r1 = range@;
        let n = range.books.len();
        let mut changes: Vec<Cell> = Vec::new();
        let mut i: usize = 0;
        while i < n
            invariant
                i <= n,
                n == r1.books.len(),
                n == l0.books.len(),
                visited@.len() == n,
                cells_valid(protos@, r1.books),
                unit_index(protos@, unit as int),
                empty@ == empty_id(),
                range.start == r1.start,
                range.end == r1.end,
                range.size == r1.size,
                range@.books.len() == n,
                forall|j: int| 0 <= j < n ==> (#[trigger] visited@[j] <==> reachable(protos@, l0.books, director.map_size, j)),
                forall|j: int| 0 <= j < n ==> (#[trigger] r1.books[j]) == (CellView { locked: true, ..l0.books[j] }),
                forall|j: int| i <= j < n ==> #[trigger] range@.books[j] == r1.books[j],
                forall|j: int| 0 <= j < i ==> (#[trigger] range@.books[j]) == (CellView {
                    possibilities: pruned(protos@, l0.books, director.map_size, unit, j),
                    ..r1.books[j]
                }),
                changes@.len() == 0 <==> forall|j: int| 0 <= j < i ==> !(solid(protos@, #[trigger] l0.books[j]) && !reachable(protos@, l0.books, director.map_size, j)),
                changes@.map_values(|c: Cell| c.position) == pruned_positions(protos@, l0.books, director.map_size, i as int),
                forall|k: int| 0 <= k < changes@.len() ==> (#[trigger] changes@[k]).possibilities@ == seq![unit],
            decreases n - i,
        {
            let ghost before = range@.books;
            assert(range@.books[i as int] == range.books@[i as int]@);
            assert(indices_valid(protos@, r1.books[i as int].possibilities));
            let mut prune = false;
            if !visited[i] && range.books[i].possibilities.len() == 1 {
                let p0 = range.books[i].possibilities[0];
                if !(protos[p0].id == empty) {
                    prune = true;
                }
            }
            assert(prune == (solid(protos@, l0.books[i as int]) && !reachable(protos@, l0.books, director.map_size, i as int)));
            let ghost prev = changes@;
            if prune {
                let c = range.books[i].collapsed_to(unit);
                changes.push(c.duplicate());
                range.books.set(i, c);
                proof {
                    assert(changes@.map_values(|c: Cell| c.position) =~= prev.map_values(|c: Cell| c.position).push(l0.books[i as int].position));
                }
            }
            proof {
                assert forall|j: int| 0 <= j < n && j != i implies #[trigger] range@.books[j] == before[j] by {
                    assert(range@.books[j] == range.books@[j]@);
                }
                assert(range@.books[i as int] == range.books@[i as int]@);
                assert forall|j: int| 0 <= j < i + 1 implies (#[trigger] range@.books[j]) == (CellView {
                    possibilities: pruned(protos@, l0.books, director.map_size, unit, j),
                    ..r1.books[j]
                }) by {
                    if j < i {
                        assert(range@.books[j] == before[j]);
                    }
                }
                assert forall|j: int| i + 1 <= j < n implies #[trigger] range@.books[j] == r1.books[j] by {
                    assert(range@.books[j] == before[j]);
                }
            }
            i = i + 1;
        }
        let ghost r2 = range@;
        proof {
            assert(range_wf(r2)) by {
                assert forall|j: int| 0 <= j < r2.books.len() implies {
                    let p = #[trigger] r2.books[j].position;
                    &&& in_box(p, r2.start, crate::library::end_of(r2.start, r2.size))
                    &&& crate::geometry::linear_at(r2.size, r2.start, p) == j
                } by {
                    assert(r2.books[j].position == r1.books[j].position);
                }
            }
        }
        proof {
            assert forall|j: int| 0 <= j < r2.books.len() implies {
                let p = #[trigger] r2.books[j].position;
                &&& in_box(p, origin(), l1.size)
                &&& l1.books[crate::library::store_index(l1, p)].version == r2.books[j].version
            } by {
                assert(r2.books[j].position == l0.books[j].position);
                assert(crate::library::store_index(l1, l0.books[j].position) == j);
            }
            assert(crate::library::check_in_allowed(l1, r2));
        }
        match library.check_in_range(&mut range) {
            Ok(()) => {},
            Err(e) => return PruneResult::Error(EngineError::Library(e)),
        }
        proof {
            let l2 = library@;
            assert forall|j: int| 0 <= j < l0.books.len() implies (#[trigger] l2.books[j]).locked == l0.books[j].locked by {
                assert(in_box(l0.books[j].position, origin(), l0.size));
                assert(in_box(l1.books[j].position, r2.start, r2.end));
            }
            assert forall|j: int| 0 <= j < l2.books.len() implies (#[trigger] l2.books[j]).possibilities == pruned(protos@, l0.books, director.map_size, unit, j) by {
                assert(in_box(l1.books[j].position, r2.start, r2.end));
                assert(crate::geometry::linear_at(r2.size, r2.start, l1.books[j].position) == j);
            }
            assert(cells_valid(protos@, l2.books)) by {
                assert forall|j: int| 0 <= j < l2.books.len() implies indices_valid(protos@, #[trigger] l2.books[j].possibilities) by {
                    assert(indices_valid(protos@, l0.books[j].possibilities));
                    assert(indices_valid(protos@, seq![unit]));
                }
            }
        }
        let ghost u = unit as int;
        assert(u as usize == unit);
        if changes.len() == 0 {
            let res = PruneResult::NoEffect;
            assert(unit_index(protos@, u) && forall|i: int| 0 <= i < l0.books.len() ==> (#[trigger] library@.books[i]).possibilities
                == pruned(protos@, l0.books, director.map_size, u as usize, i));
            assert({
                &&& unit_index(director.proto_data@, u)
                &&& forall|i: int| 0 <= i < l0.books.len() ==> (#[trigger] library@.books[i]).possibilities
                    == pruned(director.proto_data@, l0.books, director.map_size, u as usize, i)
                &&& ((res matches PruneResult::NoEffect) <==> forall|i: int| 0 <= i < l0.books.len() ==> !(solid(director.proto_data@, #[trigger] l0.books[i])
                    && !reachable(director.proto_data@, l0.books, director.map_size, i)))
            });
            res
        } else {
            assert(!(forall|j: int| 0 <= j < n ==> !(solid(protos@, #[trigger] l0.books[j]) && !reachable(protos@, l0.books, director.map_size, j))));
            assert(!(forall|j: int| 0 <= j < l0.books.len() ==> !(solid(director.proto_data@, #[trigger] l0.books[j]) && !reachable(director.proto_data@, l0.books, director.map_size, j))));
            let res = PruneResult::Pruned(changes);
            assert(unit_index(protos@, u) && forall|i: int| 0 <= i < l0.books.len() ==> (#[trigger] library@.books[i]).possibilities
                == pruned(protos@, l0.books, director.map_size, u as usize, i));
            assert({
                &&& unit_index(director.proto_data@, u)
                &&& forall|i: int| 0 <= i < l0.books.len() ==> (#[trigger] library@.books[i]).possibilities
                    == pruned(director.proto_data@, l0.books, director.map_size, u as usize, i)
                &&& ((res matches PruneResult::NoEffect) <==> forall|i: int| 0 <= i < l0.books.len() ==> !(solid(director.proto_data@, #[trigger] l0.books[i])
                    && !reachable(director.proto_data@, l0.books, director.map_size, i)))
            });
            res
        }
    }
}

} // verus!

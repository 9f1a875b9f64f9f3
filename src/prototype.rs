use vstd::prelude::*;

use crate::geometry::Vec3i;

verus! {

/// Slot of the `+x` adjacency list.
pub const P_X: usize = 0;

/// Slot of the `+y` adjacency list.
pub const P_Y: usize = 1;

/// Slot of the `-x` adjacency list.
pub const N_X: usize = 2;

/// Slot of the `-y` adjacency list.
pub const N_Y: usize = 3;

/// Slot of the `+z` adjacency list.
pub const P_Z: usize = 4;

/// Slot of the `-z` adjacency list.
pub const N_Z: usize = 5;

/// A tile kind.
///
/// `valid_neighbors` holds six lists of compatible prototype ids, in the order of the
/// catalogue file (`+x, +y, -x, -y, +z, -z` of its own axes). The lattice direction
/// `(0,1,0)` reads slot `P_Z`, `(0,-1,0)` slot `N_Z`, `(1,0,0)` slot `P_X`, `(-1,0,0)`
/// slot `N_X`, `(0,0,-1)` slot `P_Y` and `(0,0,1)` slot `N_Y`.
///
/// `weight` is the relative sampling weight as a positive integer (fixed point).
#[derive(Clone, Debug)]
pub struct Prototype {
    pub id: String,
    pub mesh_name: String,
    pub mesh_rotation: i32,
    pub pos_x: String,
    pub neg_x: String,
    pub pos_y: String,
    pub neg_y: String,
    pub pos_z: String,
    pub neg_z: String,
    pub constrain_to: String,
    pub constrain_from: String,
    pub weight: u32,
    pub no_id: i32,
    pub no_id_sym: i32,
    pub valid_neighbors: Vec<Vec<String>>,
}

/// The id of the empty ("air") tile.
pub open spec fn empty_id() -> Seq<char> {
    seq!['p', '-', '1']
}

/// The constraint tag of prototypes that may only stand on the ground layer.
pub open spec fn bottom_tag() -> Seq<char> {
    seq!['B', 'O', 'T']
}

/// Adjacency slot read for a lattice direction; `-1` for a non-axis direction.
pub open spec fn slot_of(d: Vec3i) -> int {
    if d == (Vec3i { x: 0, y: 1, z: 0 }) {
        P_Z as int
    } else if d == (Vec3i { x: 0, y: -1i32, z: 0 }) {
        N_Z as int
    } else if d == (Vec3i { x: 1, y: 0, z: 0 }) {
        P_X as int
    } else if d == (Vec3i { x: -1i32, y: 0, z: 0 }) {
        N_X as int
    } else if d == (Vec3i { x: 0, y: 0, z: -1i32 }) {
        P_Y as int
    } else if d == (Vec3i { x: 0, y: 0, z: 1 }) {
        N_Y as int
    } else {
        -1
    }
}

/// Some string of `list` has the view `id`.
pub open spec fn list_has(list: Seq<String>, id: Seq<char>) -> bool {
    exists|j: int| 0 <= j < list.len() && #[trigger] list[j]@ == id
}

/// `p` accepts a neighbour with id `other` in direction `d`.
pub open spec fn compatible(p: Prototype, other: Seq<char>, d: Vec3i) -> bool {
    let k = slot_of(d);
    0 <= k < p.valid_neighbors@.len() && list_has(p.valid_neighbors@[k]@, other)
}

/// `p` accepts at least one of the catalogue entries `others` in direction `d`.
pub open spec fn compatible_any(protos: Seq<Prototype>, p: Prototype, others: Seq<usize>, d: Vec3i) -> bool {
    exists|j: int| 0 <= j < others.len() && #[trigger] compatible(p, protos[others[j] as int].id@, d)
}

/// Every entry of `list` names a prototype of the catalogue.
pub open spec fn indices_valid(protos: Seq<Prototype>, list: Seq<usize>) -> bool {
    forall|i: int| 0 <= i < list.len() ==> #[trigger] list[i] < protos.len()
}

/// The prototype at catalogue index `i` may stand flush against the map edge in direction `d`.
pub open spec fn is_uncapped(protos: Seq<Prototype>, d: Vec3i) -> spec_fn(usize) -> bool {
    |i: usize| 0 <= i < protos.len() && compatible(protos[i as int], empty_id(), d)
}

/// The prototype at catalogue index `i` is not constrained to `tag`.
pub open spec fn not_constrained(protos: Seq<Prototype>, tag: Seq<char>) -> spec_fn(usize) -> bool {
    |i: usize| 0 <= i < protos.len() && protos[i as int].constrain_to@ != tag
}

/// Executable form of the empty tile's id.
pub fn empty_id_string() -> (r: String)
    ensures
        r@ == empty_id(),
{
    let s = "p-1";
    proof {
        reveal_strlit("p-1");
    }
    s.to_owned()
}

/// Executable form of the ground-only constraint tag.
pub fn bottom_tag_string() -> (r: String)
    ensures
        r@ == bottom_tag(),
{
    let s = "BOT";
    proof {
        reveal_strlit("BOT");
    }
    s.to_owned()
}

/// The adjacency slot for a lattice direction, if it is an axis unit vector.
pub fn direction_slot(d: Vec3i) -> (r: Option<usize>)
    ensures
        slot_of(d) < 0 ==> r.is_none(),
        slot_of(d) >= 0 ==> r == Some(slot_of(d) as usize),
{
    if d.x == 0 && d.y == 1 && d.z == 0 {
        Some(P_Z)
    } else if d.x == 0 && d.y == -1 && d.z == 0 {
        Some(N_Z)
    } else if d.x == 1 && d.y == 0 && d.z == 0 {
        Some(P_X)
    } else if d.x == -1 && d.y == 0 && d.z == 0 {
        Some(N_X)
    } else if d.x == 0 && d.y == 0 && d.z == -1 {
        Some(P_Y)
    } else if d.x == 0 && d.y == 0 && d.z == 1 {
        Some(N_Y)
    } else {
        None
    }
}

impl Prototype {
    /// True iff this prototype's adjacency list toward `direction` holds `other_id`.
    /// Any direction other than the six axis unit vectors gives false.
    pub fn compatible_with(&self, other_id: &String, direction: Vec3i) -> (r: bool)
        ensures
            r == compatible(*self, other_id@, direction),
    {
        match direction_slot(direction) {
            None => false,
            Some(k) => {
                if k >= self.valid_neighbors.len() {
                    return false;
                }
                let list = &self.valid_neighbors[k];
                let mut j: usize = 0;
                while j < list.len()
                    invariant
                        j <= list@.len(),
                        k < self.valid_neighbors@.len(),
                        slot_of(direction) == k,
                        *list == self.valid_neighbors@[k as int],
                        forall|m: int| 0 <= m < j ==> list@[m]@ != other_id@,
                    decreases list@.len() - j,
                {
                    if list[j] == *other_id {
                        assert(list@[j as int]@ == other_id@);
                        return true;
                    }
                    j = j + 1;
                }
                false
            },
        }
    }

    /// True iff this prototype accepts at least one of the catalogue entries `others`
    /// in `direction`.
    pub fn compatible_with_any(&self, others: &Vec<usize>, protos: &Vec<Prototype>, direction: Vec3i) -> (r: bool)
        requires
            indices_valid(protos@, others@),
        ensures
            r == compatible_any(protos@, *self, others@, direction),
    {
        let mut j: usize = 0;
        while j < others.len()
            invariant
                j <= others@.len(),
                indices_valid(protos@, others@),
                forall|m: int|
                    0 <= m < j ==> !#[trigger] compatible(*self, protos@[others@[m] as int].id@, direction),
            decreases others@.len() - j,
        {
            if self.compatible_with(&protos[others[j]].id, direction) {
                return true;
            }
            j = j + 1;
        }
        false
    }

    /// Keeps only the entries of `list` whose prototype may stand against the map edge in
    /// `direction`, that is whose adjacency list toward it holds the empty tile.
    pub fn retain_uncapped(protos: &Vec<Prototype>, list: &mut Vec<usize>, direction: Vec3i)
        requires
            indices_valid(protos@, old(list)@),
        ensures
            final(list)@ == old(list)@.filter(is_uncapped(protos@, direction)),
    {
        let empty = empty_id_string();
        let ghost pred = is_uncapped(protos@, direction);
        let mut kept: Vec<usize> = Vec::new();
        let mut i: usize = 0;
        while i < list.len()
            invariant
                i <= list@.len(),
                indices_valid(protos@, list@),
                empty@ == empty_id(),
                pred == is_uncapped(protos@, direction),
                kept@ == list@.subrange(0, i as int).filter(pred),
            decreases list@.len() - i,
        {
            let e = list[i];
            proof {
                assert(list@.subrange(0, i + 1) == list@.subrange(0, i as int).push(e));
                list@.subrange(0, i as int).lemma_filter_push(e, pred);
                assert(e < protos@.len());
                assert(pred(e) == compatible(protos@[e as int], empty_id(), direction));
            }
            if protos[e].compatible_with(&empty, direction) {
                kept.push(e);
            }
            i = i + 1;
        }
        proof {
            assert(list@.subrange(0, list@.len() as int) == list@);
        }
        *list = kept;
    }

    /// Removes the entries of `list` whose prototype's `constrain_to` equals `tag`.
    pub fn retain_not_constrained(protos: &Vec<Prototype>, list: &mut Vec<usize>, tag: &String)
        requires
            indices_valid(protos@, old(list)@),
        ensures
            final(list)@ == old(list)@.filter(not_constrained(protos@, tag@)),
    {
        let ghost pred = not_constrained(protos@, tag@);
        let mut kept: Vec<usize> = Vec::new();
        let mut i: usize = 0;
        while i < list.len()
            invariant
                i <= list@.len(),
                indices_valid(protos@, list@),
                pred == not_constrained(protos@, tag@),
                kept@ == list@.subrange(0, i as int).filter(pred),
            decreases list@.len() - i,
        {
            let e = list[i];
            proof {
                assert(list@.subrange(0, i + 1) == list@.subrange(0, i as int).push(e));
                list@.subrange(0, i as int).lemma_filter_push(e, pred);
                assert(e < protos@.len());
                assert(pred(e) == (protos@[e as int].constrain_to@ != tag@));
            }
            if !(protos[e].constrain_to == *tag) {
                kept.push(e);
            }
            i = i + 1;
        }
        proof {
            assert(list@.subrange(0, list@.len() as int) == list@);
        }
        *list = kept;
    }
}

/// Filtering a sequence twice by one predicate equals filtering it once.
pub proof fn lemma_filter_idempotent<A>(s: Seq<A>, pred: spec_fn(A) -> bool)
    ensures
        s.filter(pred).filter(pred) == s.filter(pred),
    decreases s.len(),
{
    reveal(Seq::filter);
    if s.len() > 0 {
        let rest = s.drop_last();
        lemma_filter_idempotent(rest, pred);
        if pred(s.last()) {
            rest.filter(pred).lemma_filter_push(s.last(), pred);
        }
    }
}

/// A filtered list of valid catalogue indices is still valid.
pub proof fn lemma_filter_valid(protos: Seq<Prototype>, list: Seq<usize>, pred: spec_fn(usize) -> bool)
    requires
        indices_valid(protos, list),
    ensures
        indices_valid(protos, list.filter(pred)),
{
    assert forall|i: int| 0 <= i < list.filter(pred).len() implies #[trigger] list.filter(pred)[i]
        < protos.len() by {
        let e = list.filter(pred)[i];
        assert(list.filter(pred).contains(e));
        list.lemma_filter_contains_rev(pred, e);
    }
}

/// Restricting a list to the uncapped prototypes toward `direction` is idempotent.
pub proof fn lemma_retain_uncapped_idempotent(protos: Seq<Prototype>, list: Seq<usize>, direction: Vec3i)
    ensures
        list.filter(is_uncapped(protos, direction)).filter(is_uncapped(protos, direction))
            == list.filter(is_uncapped(protos, direction)),
{
    lemma_filter_idempotent(list, is_uncapped(protos, direction));
}

/// Removing the prototypes constrained to `tag` is idempotent.
pub proof fn lemma_retain_not_constrained_idempotent(protos: Seq<Prototype>, list: Seq<usize>, tag: Seq<char>)
    ensures
        list.filter(not_constrained(protos, tag)).filter(not_constrained(protos, tag))
            == list.filter(not_constrained(protos, tag)),
{
    lemma_filter_idempotent(list, not_constrained(protos, tag));
}

} // verus!

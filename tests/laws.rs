use live_wfc::cell::Cell;
use live_wfc::chunk::{Chunk, ChunkState};
use live_wfc::geometry::Vec3i;
use live_wfc::kernel::GROUND_BIAS;
use live_wfc::library::{Library3D, Range};
use live_wfc::params::MapParameters;
use live_wfc::prototype::{bottom_tag_string, Prototype};
use live_wfc::random::seeded_rng;

fn v(x: i32, y: i32, z: i32) -> Vec3i {
    Vec3i { x, y, z }
}

fn proto(id: &str, lists: Vec<Vec<&str>>, tag: &str, weight: u32) -> Prototype {
    Prototype {
        id: id.to_string(),
        mesh_name: String::new(),
        mesh_rotation: 0,
        pos_x: "a".to_string(),
        neg_x: "a".to_string(),
        pos_y: "a".to_string(),
        neg_y: "a".to_string(),
        pos_z: "a".to_string(),
        neg_z: "a".to_string(),
        constrain_to: tag.to_string(),
        constrain_from: String::new(),
        weight,
        no_id: 0,
        no_id_sym: 0,
        valid_neighbors: lists.iter().map(|l| l.iter().map(|s| s.to_string()).collect()).collect(),
    }
}

/// Slots in catalogue order: +x, +y, -x, -y, +z, -z.
fn catalogue() -> Vec<Prototype> {
    vec![
        proto("p-1", vec![vec!["p-1"], vec!["p-1"], vec!["p-1"], vec!["p-1"], vec!["p-1"], vec!["p-1"]], "", 1),
        // open below (-y reads slot -z) only
        proto("base", vec![vec!["base"], vec![], vec!["base"], vec![], vec![], vec!["p-1"]], "BOT", 3),
        // open toward +x only
        proto("side", vec![vec!["p-1"], vec![], vec![], vec![], vec!["side"], vec![]], "", 5),
    ]
}

fn small_library(size: Vec3i) -> Library3D {
    let protos = catalogue();
    MapParameters::new(size, size, 1).generate_cell_library(&protos)
}

#[test]
fn compatible_with_reads_the_direction_slot() {
    let p = &catalogue()[1];
    assert!(p.compatible_with(&"base".to_string(), v(1, 0, 0)));
    assert!(p.compatible_with(&"base".to_string(), v(-1, 0, 0)));
    assert!(!p.compatible_with(&"side".to_string(), v(-1, 0, 0)));
    assert!(p.compatible_with(&"p-1".to_string(), v(0, -1, 0)));
    assert!(!p.compatible_with(&"p-1".to_string(), v(0, 1, 0)));
    assert!(!p.compatible_with(&"base".to_string(), v(2, 0, 0)));
    assert!(!p.compatible_with(&"base".to_string(), v(1, 1, 0)));
    let protos = catalogue();
    assert!(protos[2].compatible_with_any(&vec![1, 2], &protos, v(0, 1, 0)));
    assert!(!protos[2].compatible_with_any(&vec![1], &protos, v(0, 1, 0)));
    assert!(!protos[2].compatible_with_any(&vec![], &protos, v(1, 0, 0)));
}

#[test]
fn retain_filters_are_idempotent() {
    let protos = catalogue();
    let mut list = vec![0, 1, 2, 1];
    Prototype::retain_uncapped(&protos, &mut list, v(0, -1, 0));
    assert_eq!(list, vec![0, 1, 1]);
    let once = list.clone();
    Prototype::retain_uncapped(&protos, &mut list, v(0, -1, 0));
    assert_eq!(list, once);
    let tag = bottom_tag_string();
    let mut list = vec![0, 1, 2];
    Prototype::retain_not_constrained(&protos, &mut list, &tag);
    assert_eq!(list, vec![0, 2]);
    let once = list.clone();
    Prototype::retain_not_constrained(&protos, &mut list, &tag);
    assert_eq!(list, once);
}

#[test]
fn change_twice_reports_no_change() {
    let mut c = Cell::new(v(0, 0, 0), vec![0, 1, 2]);
    assert!(c.change(&vec![1]));
    assert!(!c.change(&vec![1]));
    assert_eq!(c.possibilities, vec![1]);
    assert!(!c.change(&vec![2]));
    assert_eq!(c.entropy(), 1);
}

#[test]
fn changes_from_keeps_supported_possibilities() {
    let protos = catalogue();
    let cell = Cell::new(v(0, 0, 0), vec![0, 1, 2]);
    let source = Cell::new(v(1, 0, 0), vec![1]);
    let changed = cell.changes_from(&source, &protos).unwrap();
    assert_eq!(changed.possibilities, vec![1]);
    assert_eq!(changed.position, v(0, 0, 0));
    let stable = Cell::new(v(0, 0, 0), vec![1]);
    assert!(stable.changes_from(&source, &protos).is_none());
}

#[test]
fn weighted_choice_follows_running_totals() {
    let protos = catalogue();
    let c = Cell::new(v(0, 0, 0), vec![0, 1, 2]);
    assert_eq!(c.total_weight(&protos), 9);
    // running totals 1, 4, 9: a draw equal to a total picks that entry
    assert_eq!(c.choose_weighted(&protos, 0), Some(0));
    assert_eq!(c.choose_weighted(&protos, 1), Some(0));
    assert_eq!(c.choose_weighted(&protos, 2), Some(1));
    assert_eq!(c.choose_weighted(&protos, 4), Some(1));
    assert_eq!(c.choose_weighted(&protos, 5), Some(2));
    assert_eq!(c.choose_weighted(&protos, 9), Some(2));
    assert_eq!(c.choose_weighted(&protos, 100), Some(2));
    assert_eq!(Cell::new(v(0, 0, 0), vec![]).choose_weighted(&protos, 0), None);
    let picked = c.collapsed_by_draw(&protos, 4).unwrap();
    assert_eq!(picked.possibilities, vec![1]);
    assert_eq!(c.collapsed(Some(1), &protos, &mut seeded_rng(1)).unwrap().possibilities, vec![1]);
}

#[test]
fn sampled_collapse_picks_an_existing_possibility() {
    let protos = catalogue();
    let c = Cell::new(v(0, 0, 0), vec![1, 2]);
    let mut rng = seeded_rng(42);
    for _ in 0..20 {
        let d = c.collapsed(None, &protos, &mut rng).unwrap();
        assert_eq!(d.possibilities.len(), 1);
        assert!(d.possibilities[0] == 1 || d.possibilities[0] == 2);
    }
    assert!(Cell::new(v(0, 0, 0), vec![]).collapsed(None, &protos, &mut rng).is_none());
}

#[test]
fn check_out_then_in_advances_versions() {
    let mut lib = small_library(v(2, 1, 2));
    let before: Vec<u64> = lib.books.iter().map(|c| c.version).collect();
    let mut r = lib.check_out_range(v(0, 0, 0), v(2, 1, 1)).unwrap();
    assert_eq!(r.books.len(), 2);
    assert!(lib.books[0].locked && lib.books[2].locked && !lib.books[1].locked);
    assert!(lib.check_in_range(&mut r).is_ok());
    assert!(lib.books.iter().all(|c| !c.locked));
    assert!(lib.books[0].version > before[0]);
    assert!(lib.books[2].version > before[2]);
    assert_eq!(lib.books[1].version, before[1]);
}

#[test]
fn ranges_in_flight_are_disjoint() {
    let mut lib = small_library(v(3, 1, 3));
    let a = lib.check_out_range(v(0, 0, 0), v(2, 1, 2)).unwrap();
    assert!(lib.check_out_range(v(1, 0, 1), v(3, 1, 3)).is_err());
    let b = lib.check_out_range(v(2, 0, 0), v(3, 1, 3)).unwrap();
    for p in a.books.iter() {
        assert!(!b.books.iter().any(|q| q.position == p.position));
    }
    assert_eq!(lib.books.iter().filter(|c| c.locked).count(), a.books.len() + b.books.len());
}

#[test]
fn check_in_needs_the_stored_versions() {
    let mut lib = small_library(v(2, 1, 2));
    let mut r1 = lib.check_out_range(v(0, 0, 0), v(1, 1, 1)).unwrap();
    let stale = Range::new(r1.start, r1.end, vec![r1.books[0].clone()]);
    assert!(lib.check_in_range(&mut r1).is_ok());
    let mut stale = stale;
    assert!(lib.check_in_range(&mut stale).is_err());
}

#[test]
fn check_out_clamps_to_the_store() {
    let mut lib = small_library(v(2, 1, 2));
    let r = lib.check_out_range(v(1, 0, 1), v(9, 9, 9)).unwrap();
    assert_eq!(r.end, v(2, 1, 2));
    assert_eq!(r.size, v(1, 1, 1));
    assert_eq!(r.books.len(), 1);
    assert_eq!(r.books[0].position, v(1, 0, 1));
}

#[test]
fn range_index_and_contains() {
    let mut lib = small_library(v(3, 2, 4));
    let r = lib.check_out_range(v(1, 0, 1), v(3, 2, 4)).unwrap();
    assert_eq!(r.size, v(2, 2, 3));
    assert_eq!(r.index(v(1, 0, 1)), 0);
    assert_eq!(r.index(v(2, 1, 3)), 1 * 6 + 1 * 3 + 2);
    assert_eq!(r.books[r.index(v(2, 1, 2))].position, v(2, 1, 2));
    assert!(r.contains(v(2, 1, 3)));
    assert!(!r.contains(v(3, 1, 3)));
    assert!(!r.contains(v(2, 2, 3)));
    assert!(!r.contains(v(2, 1, 4)));
    assert!(!r.contains(v(0, 1, 3)));
    let n = r.get_neighbors(v(1, 0, 1));
    assert_eq!(n, vec![v(1, 1, 1), v(2, 0, 1), v(1, 0, 2)]);
}

#[test]
fn chunk_overlap_boundaries() {
    let a = Chunk::new(v(0, 0, 0), v(4, 1, 4));
    let b = Chunk::new(v(10, 0, 10), v(2, 1, 2));
    assert!(a.get_overlapping(&b).is_empty());
    assert!(!a.is_overlapping(&b));
    let all = a.get_overlapping(&a);
    assert_eq!(all.len(), 16);
    assert!(all.iter().all(|p| a.contains(*p)));
    let c = Chunk::new(v(2, 0, 0), v(4, 1, 4));
    let seam = a.get_overlapping(&c);
    assert_eq!(seam.len(), 8);
    assert!(seam.iter().all(|p| p.x == 2 || p.x == 3));
    let touching = Chunk::new(v(4, 0, 0), v(2, 1, 2));
    assert!(a.is_overlapping(&touching));
    assert!(a.get_overlapping(&touching).is_empty());
}

#[test]
fn chunk_neighbors_grow_with_n() {
    let a = Chunk::new(v(0, 0, 0), v(2, 1, 2));
    let b = Chunk::new(v(0, 0, 0), v(5, 1, 2));
    assert!(a.get_neighbors(&b, 0).is_empty());
    let n1 = a.get_neighbors(&b, 1);
    assert_eq!(n1, vec![v(2, 0, 0), v(2, 0, 1)]);
    let n2 = a.get_neighbors(&b, 2);
    assert_eq!(n2.len(), 4);
    assert!(n1.iter().all(|p| n2.contains(p)));
    let n9 = a.get_neighbors(&b, 9);
    assert_eq!(n9.len(), 6);
    assert!(a.get_neighbors(&a, 3).is_empty());
}

#[test]
fn chunk_contains_excludes_end_faces() {
    let a = Chunk::new(v(1, 1, 1), v(2, 2, 2));
    assert!(a.contains(v(2, 2, 2)));
    assert!(!a.contains(v(3, 2, 2)));
    assert!(!a.contains(v(2, 3, 2)));
    assert!(!a.contains(v(2, 2, 3)));
    assert_eq!(a.bounds(), (v(1, 1, 1), v(3, 3, 3)));
}

#[test]
fn chunk_grid_layout() {
    let p = MapParameters::new(v(15, 1, 15), v(9, 1, 9), 2);
    let chunks = p.generate_chunks();
    assert_eq!(chunks.len(), 4);
    assert_eq!(chunks[0].position, v(0, 0, 0));
    assert_eq!(chunks[1].position, v(0, 0, 7));
    assert_eq!(chunks[1].size, v(9, 1, 8));
    assert_eq!(chunks[3].position, v(7, 0, 7));
    assert_eq!(chunks[3].size, v(8, 1, 8));
    assert!(chunks.iter().all(|c| c.state == ChunkState::Ready));
    let q = MapParameters::new(v(6, 1, 4), v(4, 1, 4), 2);
    let cs = q.generate_chunks();
    assert_eq!(cs.len(), 2);
    assert_eq!(cs[1].position, v(2, 0, 0));
    assert_eq!(cs[1].size, v(4, 1, 4));
    assert!(MapParameters::new(v(0, 1, 4), v(4, 1, 4), 2).generate_chunks().is_empty());
}

#[test]
fn initial_cells_follow_the_boundary_rules() {
    let lib = small_library(v(2, 2, 1));
    assert_eq!(lib.books.len(), 4);
    // ground layer: only what is open below (and all edges/top rules)
    let ground = &lib.books[0];
    assert_eq!(ground.position, v(0, 0, 0));
    assert_eq!(ground.possibilities, vec![0]);
    // store order is y, then x, then z
    assert_eq!(lib.books[1].position, v(1, 0, 0));
    assert_eq!(lib.books[2].position, v(0, 1, 0));
    assert_eq!(lib.books[2].possibilities, vec![0]);
}

#[test]
fn lowest_entropy_prefers_off_ground_cells() {
    let chunk = Chunk::new(v(0, 0, 0), v(1, 2, 2));
    let cells = vec![
        Cell::new(v(0, 0, 0), vec![0, 1]),
        Cell::new(v(0, 0, 1), vec![0, 1, 2]),
        Cell::new(v(0, 1, 0), vec![0, 1, 2]),
        Cell::new(v(0, 1, 1), vec![0, 1, 2]),
    ];
    assert_eq!(chunk.select_lowest_entropy(&cells, GROUND_BIAS), vec![2, 3]);
    assert_eq!(chunk.select_lowest_entropy(&cells, 0), vec![0]);
    let done = vec![Cell::new(v(0, 0, 0), vec![1]), Cell::new(v(0, 1, 0), vec![])];
    assert!(chunk.select_lowest_entropy(&done, GROUND_BIAS).is_empty());
}

#[test]
fn propagation_reaches_a_fixed_point() {
    let protos = catalogue();
    let mut lib = small_library(v(3, 1, 1));
    let mut r = lib.check_out_range(v(0, 0, 0), v(3, 1, 1)).unwrap();
    let chunk = Chunk::new(v(0, 0, 0), v(3, 1, 1));
    for c in r.books.iter_mut() {
        c.change(&vec![0, 1, 2]);
    }
    r.books[0].change(&vec![1]);
    let changes = chunk.propagate_all(&mut r, &protos).unwrap();
    assert_eq!(r.books[1].possibilities, vec![1]);
    assert_eq!(r.books[2].possibilities, vec![1]);
    assert_eq!(changes.len(), 2);
    assert!(lib.check_in_range(&mut r).is_ok());
}

#[test]
fn propagation_reports_overcollapse() {
    let protos = catalogue();
    let mut lib = small_library(v(2, 1, 1));
    let mut r = lib.check_out_range(v(0, 0, 0), v(2, 1, 1)).unwrap();
    let chunk = Chunk::new(v(0, 0, 0), v(2, 1, 1));
    r.books[0].change(&vec![2]);
    r.books[1].change(&vec![1]);
    let e = chunk.propagate_all(&mut r, &protos).unwrap_err();
    assert!(matches!(e, live_wfc::kernel::ChunkError::Overcollapsed(_)));
}

#[test]
fn collapse_next_finishes_the_chunk() {
    let protos = catalogue();
    let mut lib = small_library(v(2, 1, 1));
    let mut r = lib.check_out_range(v(0, 0, 0), v(2, 1, 1)).unwrap();
    let mut chunk = Chunk::new(v(0, 0, 0), v(2, 1, 1));
    for c in r.books.iter_mut() {
        c.change(&vec![0, 0]);
    }
    let mut rng = seeded_rng(9);
    let first = chunk.collapse_next(&mut r, &protos, &mut rng).unwrap();
    assert!(matches!(first, live_wfc::messages::WorkerUpdateStatus::Changed(_)));
    let mut steps = 0;
    loop {
        let s = chunk.collapse_next(&mut r, &protos, &mut rng).unwrap();
        if matches!(s, live_wfc::messages::WorkerUpdateStatus::Done) {
            break;
        }
        steps += 1;
        assert!(steps < 10);
    }
    assert_eq!(chunk.state, ChunkState::Collapsed);
    assert!(r.books.iter().all(|c| c.entropy() <= 1));
}

#[test]
fn store_lookup_by_position() {
    let lib = small_library(v(2, 2, 3));
    let c = lib.get_cell(v(1, 1, 2)).unwrap();
    assert_eq!(c.position, v(1, 1, 2));
    assert!(lib.get_cell(v(2, 0, 0)).is_none());
    assert!(lib.get_cell(v(0, -1, 0)).is_none());
    assert!(lib.get_cell(v(0, 0, 3)).is_none());
}

#[test]
fn chunk_neighbors_use_chebyshev_distance() {
    let a = Chunk::new(v(1, 0, 1), v(1, 1, 1));
    let b = Chunk::new(v(0, 0, 0), v(3, 1, 3));
    let n1 = a.get_neighbors(&b, 1);
    assert_eq!(n1.len(), 8);
    assert!(n1.contains(&v(0, 0, 0)));
    assert!(n1.contains(&v(2, 0, 2)));
    assert!(!n1.contains(&v(1, 0, 1)));
}

#[test]
fn neighbor_list_has_no_duplicates() {
    let mut lib = small_library(v(3, 3, 3));
    let r = lib.check_out_range(v(0, 0, 0), v(3, 3, 3)).unwrap();
    let n = r.get_neighbors(v(1, 1, 1));
    assert_eq!(n.len(), 6);
    for i in 0..n.len() {
        for j in 0..n.len() {
            if i != j {
                assert_ne!(n[i], n[j]);
            }
        }
    }
}

#[test]
fn chunk_layout_covers_every_cell() {
    for (map, chunk, overlap) in [(v(15, 1, 15), v(9, 1, 9), 2), (v(6, 1, 4), v(4, 1, 4), 2), (v(7, 3, 5), v(3, 2, 3), 1)] {
        let chunks = MapParameters::new(map, chunk, overlap).generate_chunks();
        for y in 0..map.y {
            for x in 0..map.x {
                for z in 0..map.z {
                    assert!(chunks.iter().any(|c| c.contains(v(x, y, z))));
                }
            }
        }
    }
}

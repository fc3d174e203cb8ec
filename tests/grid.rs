use game_core::collision::CollisionLayer;
use game_core::grid::{for_grid_cells_in_aabb, BodyId, BodyProxy, CellRange, SpatialGrid};
use game_core::pool::Pool;

fn ids(n: usize) -> Vec<BodyId> {
    let mut pool = Pool::new();
    (0..n).map(|_| pool.push(())).collect()
}

fn proxy(id: BodyId, layer: CollisionLayer, range: (i32, i32, i32, i32)) -> BodyProxy {
    BodyProxy {
        id,
        layer,
        cells: CellRange { min_x: range.0, min_y: range.1, max_x: range.2, max_y: range.3 },
    }
}

#[test]
fn cells_of_a_range_are_enumerated_row_by_row() {
    let range = CellRange { min_x: -1, min_y: 4, max_x: 1, max_y: 5 };
    let cells = for_grid_cells_in_aabb(&range);
    assert_eq!(cells, vec![(-1, 4), (0, 4), (1, 4), (-1, 5), (0, 5), (1, 5)]);
}

#[test]
fn single_cell_and_empty_ranges() {
    let one = CellRange { min_x: 7, min_y: -3, max_x: 7, max_y: -3 };
    assert_eq!(for_grid_cells_in_aabb(&one), vec![(7, -3)]);
    let inverted = CellRange { min_x: 2, min_y: 0, max_x: 1, max_y: 0 };
    assert!(for_grid_cells_in_aabb(&inverted).is_empty());
}

#[test]
fn corners_in_either_order_give_the_same_range() {
    let a = CellRange::from_corners((3, -2), (-1, 5));
    let b = CellRange::from_corners((-1, 5), (3, -2));
    assert_eq!(a, b);
    assert_eq!(a, CellRange { min_x: -1, min_y: -2, max_x: 3, max_y: 5 });
}

#[test]
fn body_spanning_four_cells_is_in_each_and_found_by_query() {
    let id = ids(1)[0];
    let mut grid = SpatialGrid::new();
    grid.rebuild(&vec![proxy(id, CollisionLayer::Player, (0, 0, 1, 1))]);
    for cell in [(0, 0), (0, 1), (1, 0), (1, 1)] {
        assert_eq!(grid.bodies_in(cell), vec![id]);
    }
    assert!(grid.bodies_in((2, 1)).is_empty());
    assert!(grid.bodies_in((-1, 0)).is_empty());
    let only_corner = CellRange { min_x: 1, min_y: 1, max_x: 1, max_y: 1 };
    assert_eq!(grid.query(&only_corner), vec![id]);
    let elsewhere = CellRange { min_x: 2, min_y: 2, max_x: 5, max_y: 5 };
    assert!(grid.query(&elsewhere).is_empty());
}

#[test]
fn three_overlapping_bodies_give_three_pairs_once_each() {
    let b = ids(3);
    let mut grid = SpatialGrid::new();
    grid.rebuild(&vec![
        proxy(b[0], CollisionLayer::Player, (0, 0, 1, 1)),
        proxy(b[1], CollisionLayer::Enemy, (0, 0, 1, 1)),
        proxy(b[2], CollisionLayer::Environment, (0, 0, 2, 1)),
    ]);
    let mut pairs = grid.collision_pairs();
    assert_eq!(pairs.len(), 3);
    pairs.sort_by_key(|(a, b)| (a.index(), b.index()));
    assert_eq!(pairs, vec![(b[0], b[1]), (b[0], b[2]), (b[1], b[2])]);
}

#[test]
fn player_and_own_projectile_never_pair() {
    let b = ids(2);
    let mut grid = SpatialGrid::new();
    grid.rebuild(&vec![
        proxy(b[0], CollisionLayer::Player, (-1, -1, 1, 1)),
        proxy(b[1], CollisionLayer::PlayerProjectile, (-1, -1, 1, 1)),
    ]);
    assert!(grid.collision_pairs().is_empty());
    let everything = CellRange { min_x: -1, min_y: -1, max_x: 1, max_y: 1 };
    assert_eq!(grid.query(&everything).len(), 2);
}

#[test]
fn enemy_and_own_projectile_never_pair_but_player_projectile_hits_enemy() {
    let b = ids(3);
    let mut grid = SpatialGrid::new();
    grid.rebuild(&vec![
        proxy(b[0], CollisionLayer::Enemy, (0, 0, 0, 0)),
        proxy(b[1], CollisionLayer::EnemyProjectile, (0, 0, 0, 0)),
        proxy(b[2], CollisionLayer::PlayerProjectile, (0, 0, 0, 0)),
    ]);
    let mut pairs = grid.collision_pairs();
    pairs.sort_by_key(|(a, b)| (a.index(), b.index()));
    assert_eq!(pairs, vec![(b[0], b[2]), (b[1], b[2])]);
}

#[test]
fn bodies_in_separate_cells_do_not_pair() {
    let b = ids(2);
    let mut grid = SpatialGrid::new();
    grid.rebuild(&vec![
        proxy(b[0], CollisionLayer::Player, (0, 0, 0, 0)),
        proxy(b[1], CollisionLayer::Enemy, (1, 0, 1, 0)),
    ]);
    assert!(grid.collision_pairs().is_empty());
}

#[test]
fn pair_lists_lower_slot_first_whatever_the_insertion_order() {
    let b = ids(2);
    let mut grid = SpatialGrid::new();
    grid.rebuild(&vec![
        proxy(b[1], CollisionLayer::Player, (0, 0, 0, 0)),
        proxy(b[0], CollisionLayer::Enemy, (0, 0, 0, 0)),
    ]);
    assert_eq!(grid.bodies_in((0, 0)), vec![b[1], b[0]]);
    assert_eq!(grid.collision_pairs(), vec![(b[0], b[1])]);
}

#[test]
fn rebuild_discards_the_previous_contents() {
    let b = ids(2);
    let mut grid = SpatialGrid::new();
    grid.rebuild(&vec![proxy(b[0], CollisionLayer::Player, (0, 0, 0, 0))]);
    grid.rebuild(&vec![proxy(b[1], CollisionLayer::Player, (5, 5, 5, 5))]);
    assert!(grid.bodies_in((0, 0)).is_empty());
    assert_eq!(grid.bodies_in((5, 5)), vec![b[1]]);
}

#[test]
fn repeated_proxy_is_recorded_once_per_cell() {
    let b = ids(1);
    let mut grid = SpatialGrid::new();
    let p = proxy(b[0], CollisionLayer::Player, (0, 0, 1, 0));
    grid.rebuild(&vec![p, p]);
    assert_eq!(grid.bodies_in((0, 0)), vec![b[0]]);
    assert_eq!(grid.bodies_in((1, 0)), vec![b[0]]);
    assert!(grid.collision_pairs().is_empty());
}

#[test]
fn busiest_cell_counts_the_fullest_cell() {
    let b = ids(4);
    let mut grid = SpatialGrid::new();
    assert_eq!(grid.busiest_cell(), 0);
    grid.rebuild(&vec![
        proxy(b[0], CollisionLayer::Player, (0, 0, 0, 0)),
        proxy(b[1], CollisionLayer::Player, (0, 0, 1, 0)),
        proxy(b[2], CollisionLayer::Player, (1, 0, 1, 0)),
        proxy(b[3], CollisionLayer::Player, (1, 0, 2, 0)),
    ]);
    assert_eq!(grid.busiest_cell(), 3);
}

use resource_sim::grid::new_grid;
use resource_sim::map::{
    can_place, place_deposit, try_place, CellType, Position, Resource, ResourceType, WorldMap, MAX_QUANTITY, MIN_QUANTITY,
    NUM_RESOURCES,
};
use resource_sim::posmap::PositionMap;
use resource_sim::random::seeded_rng;

fn open_map(width: usize, height: usize) -> WorldMap {
    WorldMap {
        width,
        height,
        cells: vec![vec![CellType::Empty; width]; height],
        resources: PositionMap::new(),
        base_position: Position::new(width / 2, height / 2),
    }
}

#[test]
fn neighbors_of_inner_cell_in_order() {
    let p = Position::new(1, 1);
    assert_eq!(
        p.neighbors_cardinal(3, 3),
        vec![Position::new(1, 0), Position::new(1, 2), Position::new(0, 1), Position::new(2, 1)]
    );
}

#[test]
fn neighbors_of_corner_cell() {
    let p = Position::new(0, 0);
    assert_eq!(p.neighbors_cardinal(3, 3), vec![Position::new(0, 1), Position::new(1, 0)]);
    let q = Position::new(2, 2);
    assert_eq!(q.neighbors_cardinal(3, 3), vec![Position::new(2, 1), Position::new(1, 2)]);
}

#[test]
fn neighbors_of_position_just_off_the_grid() {
    let p = Position::new(3, 1);
    assert_eq!(p.neighbors_cardinal(3, 3), vec![Position::new(2, 1)]);
    let far = Position::new(10, 10);
    assert!(far.neighbors_cardinal(3, 3).is_empty());
}

#[test]
fn neighbors_on_single_cell_grid() {
    assert!(Position::new(0, 0).neighbors_cardinal(1, 1).is_empty());
}

#[test]
fn get_cell_reads_grid_and_treats_outside_as_obstacle() {
    let mut m = open_map(4, 3);
    m.cells[2][3] = CellType::Crystal;
    m.cells[0][1] = CellType::Obstacle;
    assert_eq!(m.get_cell(Position::new(3, 2)), CellType::Crystal);
    assert_eq!(m.get_cell(Position::new(1, 0)), CellType::Obstacle);
    assert_eq!(m.get_cell(Position::new(0, 0)), CellType::Empty);
    assert_eq!(m.get_cell(Position::new(4, 0)), CellType::Obstacle);
    assert_eq!(m.get_cell(Position::new(0, 3)), CellType::Obstacle);
}

#[test]
fn new_grid_has_requested_shape() {
    let g = new_grid(5, 2, 7u8);
    assert_eq!(g.len(), 2);
    assert!(g.iter().all(|row| row.len() == 5 && row.iter().all(|v| *v == 7)));
}

#[test]
fn position_map_insert_get_remove() {
    let mut m: PositionMap<u32> = PositionMap::new();
    assert_eq!(m.len(), 0);
    m.insert(Position::new(1, 2), 10);
    m.insert(Position::new(3, 4), 20);
    m.insert(Position::new(1, 2), 30);
    assert_eq!(m.len(), 2);
    assert_eq!(m.get(Position::new(1, 2)), Some(30));
    assert_eq!(m.get(Position::new(3, 4)), Some(20));
    assert_eq!(m.get(Position::new(0, 0)), None);
    assert_eq!(m.entry(0), (Position::new(1, 2), 30));
    assert_eq!(m.find(Position::new(3, 4)), Some(1));
    m.remove(Position::new(1, 2));
    assert!(!m.contains_key(Position::new(1, 2)));
    assert_eq!(m.len(), 1);
    assert_eq!(m.entry(0), (Position::new(3, 4), 20));
    m.remove(Position::new(9, 9));
    assert_eq!(m.len(), 1);
}

fn cheb(a: usize, b: usize) -> usize {
    if a > b { a - b } else { b - a }
}

#[test]
fn generated_open_map_places_all_deposits_away_from_base() {
    let mut rng = seeded_rng(Some(7));
    let obstacles = vec![vec![false; 80]; 30];
    let m = WorldMap::generate(80, 30, &obstacles, &mut rng);
    assert_eq!(m.width, 80);
    assert_eq!(m.height, 30);
    assert_eq!(m.base_position, Position::new(40, 15));
    // on a wide open map every deposit finds a place: fifteen in all
    assert_eq!(NUM_RESOURCES, 15);
    assert_eq!(m.resources.len(), NUM_RESOURCES);
    let mut energy = 0;
    let mut crystal = 0;
    let mut quantities = Vec::new();
    for i in 0..m.resources.len() {
        let (p, r) = m.resources.entry(i);
        assert!(cheb(p.x, 40) > 3 || cheb(p.y, 15) > 3);
        assert!(MIN_QUANTITY <= r.quantity && r.quantity <= MAX_QUANTITY);
        match r.resource_type {
            ResourceType::Energy => {
                energy += 1;
                assert_eq!(m.get_cell(p), CellType::Energy);
            }
            ResourceType::Crystal => {
                crystal += 1;
                assert_eq!(m.get_cell(p), CellType::Crystal);
            }
        }
        quantities.push(r.quantity);
    }
    // both kinds and varied quantities come out of the generator
    assert!(energy > 0 && crystal > 0);
    assert!(quantities.iter().any(|q| *q != quantities[0]));
    let xs: Vec<usize> = (0..m.resources.len()).map(|i| m.resources.entry(i).0.x).collect();
    assert!(xs.iter().any(|x| *x != xs[0]));
}

#[test]
fn generated_map_keeps_mask_but_clears_base_square() {
    let mut rng = seeded_rng(Some(3));
    let obstacles = vec![vec![true; 9]; 7];
    let m = WorldMap::generate(9, 7, &obstacles, &mut rng);
    let base = m.base_position;
    assert_eq!(base, Position::new(4, 3));
    for y in 0..7 {
        for x in 0..9 {
            let c = m.get_cell(Position::new(x, y));
            if cheb(x, 4) <= 1 && cheb(y, 3) <= 1 {
                assert_eq!(c, CellType::Empty);
            } else {
                assert_eq!(c, CellType::Obstacle);
            }
        }
    }
    // the only empty cells lie next to the base, so no deposit fits
    assert_eq!(m.resources.len(), 0);
}

#[test]
fn generation_is_fixed_by_the_seed() {
    let obstacles = vec![vec![false; 20]; 10];
    let a = WorldMap::generate(20, 10, &obstacles, &mut seeded_rng(Some(42)));
    let b = WorldMap::generate(20, 10, &obstacles, &mut seeded_rng(Some(42)));
    let c = WorldMap::generate(20, 10, &obstacles, &mut seeded_rng(Some(43)));
    assert_eq!(a.cells, b.cells);
    assert_eq!(a.resources.len(), b.resources.len());
    for i in 0..a.resources.len() {
        assert_eq!(a.resources.entry(i), b.resources.entry(i));
    }
    assert_ne!(a.cells, c.cells);
    // no seed means seed 0
    let d = WorldMap::generate(20, 10, &obstacles, &mut seeded_rng(None));
    let e = WorldMap::generate(20, 10, &obstacles, &mut seeded_rng(Some(0)));
    assert_eq!(d.cells, e.cells);
}

#[test]
fn cloned_map_is_identical() {
    let mut rng = seeded_rng(Some(11));
    let obstacles = vec![vec![false; 12]; 12];
    let m = WorldMap::generate(12, 12, &obstacles, &mut rng);
    let c = m.clone();
    assert_eq!(c.cells, m.cells);
    assert_eq!(c.width, m.width);
    assert_eq!(c.base_position, m.base_position);
    assert_eq!(c.resources.len(), m.resources.len());
    let _ = Resource { resource_type: ResourceType::Energy, quantity: 1 };
}

#[test]
fn can_place_needs_an_empty_cell_away_from_the_base() {
    let mut cells = vec![vec![CellType::Empty; 9]; 9];
    cells[0][8] = CellType::Obstacle;
    cells[8][0] = CellType::Crystal;
    let base = Position::new(4, 4);
    assert!(can_place(&cells, 9, 9, base, 0, 0));
    // three rows below the base is still too near; four is far enough
    assert!(!can_place(&cells, 9, 9, base, 4, 7));
    assert!(can_place(&cells, 9, 9, base, 4, 8));
    assert!(!can_place(&cells, 9, 9, base, 1, 1));
    assert!(can_place(&cells, 9, 9, base, 0, 4));
    // occupied cells are refused
    assert!(!can_place(&cells, 9, 9, base, 8, 0));
    assert!(!can_place(&cells, 9, 9, base, 0, 8));
}

#[test]
fn place_deposit_marks_the_cell_and_records_the_deposit() {
    let mut cells = vec![vec![CellType::Empty; 4]; 3];
    let mut resources = PositionMap::new();
    place_deposit(&mut cells, &mut resources, 4, 3, Position::new(3, 1), true, 120);
    place_deposit(&mut cells, &mut resources, 4, 3, Position::new(0, 2), false, 50);
    assert_eq!(cells[1][3], CellType::Energy);
    assert_eq!(cells[2][0], CellType::Crystal);
    assert_eq!(cells[0][0], CellType::Empty);
    assert_eq!(resources.len(), 2);
    assert_eq!(
        resources.get(Position::new(3, 1)),
        Some(Resource { resource_type: ResourceType::Energy, quantity: 120 })
    );
    assert_eq!(
        resources.get(Position::new(0, 2)),
        Some(Resource { resource_type: ResourceType::Crystal, quantity: 50 })
    );
}

#[test]
fn cells_around_listed_row_by_row() {
    let p = Position::new(1, 1);
    assert_eq!(
        p.neighbors_around(3, 3),
        vec![
            Position::new(0, 0),
            Position::new(1, 0),
            Position::new(2, 0),
            Position::new(0, 1),
            Position::new(2, 1),
            Position::new(0, 2),
            Position::new(1, 2),
            Position::new(2, 2),
        ]
    );
    assert_eq!(
        Position::new(2, 0).neighbors_around(3, 2),
        vec![Position::new(1, 0), Position::new(1, 1), Position::new(2, 1)]
    );
    assert!(Position::new(0, 0).neighbors_around(1, 1).is_empty());
}

#[test]
fn try_place_draws_and_places_only_where_allowed() {
    let mut rng = seeded_rng(Some(5));
    let mut cells = vec![vec![CellType::Empty; 9]; 9];
    cells[0][0] = CellType::Obstacle;
    let mut resources = PositionMap::new();
    let base = Position::new(4, 4);
    // next to the base: nothing drawn, nothing changed
    assert_eq!(try_place(&mut cells, &mut resources, 9, 9, base, 5, 6, &mut rng), None);
    // on an obstacle: nothing either
    assert_eq!(try_place(&mut cells, &mut resources, 9, 9, base, 0, 0, &mut rng), None);
    assert_eq!(resources.len(), 0);
    assert_eq!(cells[6][5], CellType::Empty);
    // far enough and empty: a deposit of the drawn kind and quantity
    let (energy, quantity) = try_place(&mut cells, &mut resources, 9, 9, base, 8, 1, &mut rng).unwrap();
    assert!(MIN_QUANTITY <= quantity && quantity <= MAX_QUANTITY);
    let kind = if energy { ResourceType::Energy } else { ResourceType::Crystal };
    assert_eq!(resources.get(Position::new(8, 1)), Some(Resource { resource_type: kind, quantity }));
    assert_eq!(cells[1][8], if energy { CellType::Energy } else { CellType::Crystal });
    // the cell is taken now
    assert_eq!(try_place(&mut cells, &mut resources, 9, 9, base, 8, 1, &mut rng), None);
    assert_eq!(resources.len(), 1);
}

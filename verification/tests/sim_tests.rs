use resource_sim::base::Base;
use resource_sim::communication::Message;
use resource_sim::glyphs::{count_robots, glyph_at, Glyph};
use resource_sim::map::{CellType, Position, Resource, ResourceType, WorldMap};
use resource_sim::posmap::PositionMap;
use resource_sim::random::seeded_rng;
use resource_sim::robot::{Robot, RobotType};
use resource_sim::simulation::{
    choose_random_neighbor, choose_target, handle_collector_target, handle_return_to_base,
    scan_resource_at, scan_surroundings, try_collect_resource, Knowledge, RenderSnapshot, Simulation,
};

/// A 5 by 5 open map with the base at the centre and the given deposits.
fn small_map(deposits: &[(usize, usize, ResourceType, u32)]) -> WorldMap {
    let mut cells = vec![vec![CellType::Empty; 5]; 5];
    let mut resources = PositionMap::new();
    for &(x, y, rt, q) in deposits {
        cells[y][x] = match rt {
            ResourceType::Energy => CellType::Energy,
            ResourceType::Crystal => CellType::Crystal,
        };
        resources.insert(Position::new(x, y), Resource { resource_type: rt, quantity: q });
    }
    WorldMap { width: 5, height: 5, cells, resources, base_position: Position::new(2, 2) }
}

fn open_obstacles(w: usize, h: usize) -> Vec<Vec<bool>> {
    vec![vec![false; w]; h]
}

#[test]
fn base_starts_empty_and_sums_deposits_by_kind() {
    let mut b = Base::new();
    assert_eq!(b.get_total_energy(), 0);
    assert_eq!(b.get_total_crystals(), 0);
    b.deposit_resource(ResourceType::Energy, 5);
    b.deposit_resource(ResourceType::Crystal, 2);
    b.deposit_resource(ResourceType::Energy, 1);
    assert_eq!(b.get_total_energy(), 6);
    assert_eq!(b.get_total_crystals(), 2);
    let d = Base::default();
    assert_eq!(d.get_total_energy(), 0);
    assert_eq!(d.get_total_crystals(), 0);
}

#[test]
fn message_robot_id_names_the_sender() {
    let p = Position::new(1, 1);
    let msgs = [
        Message::ResourceDiscovered { robot_id: 1, position: p, resource_type: ResourceType::Energy, quantity: 3 },
        Message::ObstacleDiscovered { robot_id: 2, position: p },
        Message::ResourceCollected { robot_id: 3, position: p, resource_type: ResourceType::Crystal, quantity: 1 },
        Message::ResourceDepositedAtBase { robot_id: 4, resource_type: ResourceType::Energy, quantity: 1 },
    ];
    let ids: Vec<u32> = msgs.iter().map(|m| m.robot_id()).collect();
    assert_eq!(ids, vec![1, 2, 3, 4]);
}

#[test]
fn robots_start_empty_handed() {
    let base = Position::new(2, 2);
    let s = Robot::new_scout(7, Position::new(1, 1), base);
    assert_eq!(s.id, 7);
    assert_eq!(s.robot_type, RobotType::Scout);
    assert_eq!(s.position, Position::new(1, 1));
    assert_eq!(s.base_position, base);
    assert_eq!(s.inventory, 0);
    assert_eq!(s.carrying_type, None);
    assert_eq!(s.target, None);
    assert!(!s.returning_to_base);
    let c = Robot::new_collector(8, base, base);
    assert_eq!(c.robot_type, RobotType::Collector);
    assert_eq!(c.id, 8);
    assert_eq!(c.inventory, 0);
}

#[test]
fn scan_surroundings_splits_neighbours() {
    let mut m = small_map(&[(1, 1, ResourceType::Energy, 4)]);
    m.cells[0][1] = CellType::Obstacle;
    let (free, blocked, here) = scan_surroundings(&m, Position::new(1, 1));
    // the eight cells around, row by row from the row above
    assert_eq!(
        free,
        vec![
            Position::new(0, 0),
            Position::new(2, 0),
            Position::new(0, 1),
            Position::new(2, 1),
            Position::new(0, 2),
            Position::new(1, 2),
            Position::new(2, 2),
        ]
    );
    assert_eq!(blocked, vec![Position::new(1, 0)]);
    // in a corner only three cells lie on the grid
    let (corner_free, corner_blocked, _) = scan_surroundings(&m, Position::new(0, 0));
    assert_eq!(corner_free, vec![Position::new(0, 1), Position::new(1, 1)]);
    assert_eq!(corner_blocked, vec![Position::new(1, 0)]);
    assert_eq!(here, Some((Position::new(1, 1), ResourceType::Energy, 4)));
    let (_, _, none) = scan_surroundings(&m, Position::new(3, 3));
    assert_eq!(none, None);
}

#[test]
fn scan_surroundings_ignores_exhausted_deposit() {
    let m = small_map(&[(1, 1, ResourceType::Crystal, 0)]);
    let (_, _, here) = scan_surroundings(&m, Position::new(1, 1));
    assert_eq!(here, None);
}

#[test]
fn scan_resource_at_needs_marked_cell() {
    let mut m = small_map(&[(0, 0, ResourceType::Crystal, 9)]);
    assert_eq!(scan_resource_at(&m, Position::new(0, 0)), Some((ResourceType::Crystal, 9)));
    assert_eq!(scan_resource_at(&m, Position::new(1, 0)), None);
    m.cells[0][0] = CellType::Empty;
    assert_eq!(scan_resource_at(&m, Position::new(0, 0)), None);
}

#[test]
fn choose_random_neighbor_picks_from_list() {
    let mut rng = seeded_rng(Some(5));
    assert_eq!(choose_random_neighbor(&mut rng, &[]), None);
    let options = [Position::new(0, 1), Position::new(2, 1), Position::new(1, 0)];
    let mut seen = Vec::new();
    for _ in 0..50 {
        let p = choose_random_neighbor(&mut rng, &options).unwrap();
        assert!(options.contains(&p));
        if !seen.contains(&p) {
            seen.push(p);
        }
    }
    // a generator that always gave back the low end would pick one entry only
    assert!(seen.len() > 1);
}

#[test]
fn choose_target_keeps_current_target() {
    let mut rng = seeded_rng(Some(1));
    let known: Knowledge = PositionMap::new();
    let t = Position::new(4, 4);
    assert_eq!(choose_target(Position::new(0, 0), Some(t), &known, &mut rng), Some(t));
    assert_eq!(choose_target(Position::new(0, 0), None, &known, &mut rng), None);
}

#[test]
fn choose_target_takes_nearest_known_deposit() {
    let mut rng = seeded_rng(Some(1));
    let mut known: Knowledge = PositionMap::new();
    known.insert(Position::new(10, 10), (ResourceType::Energy, 5));
    known.insert(Position::new(3, 1), (ResourceType::Crystal, 5));
    known.insert(Position::new(0, 7), (ResourceType::Energy, 5));
    assert_eq!(choose_target(Position::new(1, 1), None, &known, &mut rng), Some(Position::new(3, 1)));
}

#[test]
fn choose_target_breaks_ties_both_ways() {
    let mut known: Knowledge = PositionMap::new();
    known.insert(Position::new(0, 2), (ResourceType::Energy, 5));
    known.insert(Position::new(4, 2), (ResourceType::Energy, 5));
    known.insert(Position::new(9, 9), (ResourceType::Energy, 5));
    let mut rng = seeded_rng(Some(2));
    let mut seen = Vec::new();
    for _ in 0..40 {
        let t = choose_target(Position::new(2, 2), None, &known, &mut rng).unwrap();
        assert!(t == Position::new(0, 2) || t == Position::new(4, 2));
        if !seen.contains(&t) {
            seen.push(t);
        }
    }
    assert_eq!(seen.len(), 2);
}

#[test]
fn try_collect_takes_one_unit_and_updates_knowledge() {
    let tgt = Position::new(1, 1);
    let mut m = small_map(&[(1, 1, ResourceType::Crystal, 3)]);
    let mut known: Knowledge = PositionMap::new();
    known.insert(tgt, (ResourceType::Crystal, 3));
    assert_eq!(try_collect_resource(&mut m, &mut known, tgt), Some(ResourceType::Crystal));
    assert_eq!(m.resources.get(tgt), Some(Resource { resource_type: ResourceType::Crystal, quantity: 2 }));
    assert_eq!(known.get(tgt), Some((ResourceType::Crystal, 2)));
    assert_eq!(m.get_cell(tgt), CellType::Crystal);
}

#[test]
fn try_collect_last_unit_clears_the_deposit() {
    let tgt = Position::new(3, 0);
    let mut m = small_map(&[(3, 0, ResourceType::Energy, 1)]);
    let mut known: Knowledge = PositionMap::new();
    known.insert(tgt, (ResourceType::Energy, 1));
    assert_eq!(try_collect_resource(&mut m, &mut known, tgt), Some(ResourceType::Energy));
    assert_eq!(m.resources.get(tgt), None);
    assert_eq!(m.get_cell(tgt), CellType::Empty);
    assert_eq!(known.get(tgt), None);
}

#[test]
fn try_collect_on_nothing_forgets_the_target() {
    let tgt = Position::new(4, 4);
    let mut m = small_map(&[(0, 0, ResourceType::Energy, 2), (4, 0, ResourceType::Energy, 0)]);
    let mut known: Knowledge = PositionMap::new();
    known.insert(tgt, (ResourceType::Energy, 7));
    known.insert(Position::new(4, 0), (ResourceType::Energy, 7));
    assert_eq!(try_collect_resource(&mut m, &mut known, tgt), None);
    assert_eq!(known.get(tgt), None);
    assert_eq!(try_collect_resource(&mut m, &mut known, Position::new(4, 0)), None);
    assert_eq!(known.get(Position::new(4, 0)), None);
    assert_eq!(m.resources.len(), 2);
}

#[test]
fn collector_on_target_picks_up_one_unit() {
    let tgt = Position::new(0, 0);
    let mut m = small_map(&[(0, 0, ResourceType::Energy, 5)]);
    let mut known: Knowledge = PositionMap::new();
    let mut r = Robot::new_collector(4, tgt, Position::new(2, 2));
    let msg = handle_collector_target(&mut r, &mut m, &mut known, tgt);
    assert_eq!(
        msg,
        Some(Message::ResourceCollected { robot_id: 4, position: tgt, resource_type: ResourceType::Energy, quantity: 1 })
    );
    assert_eq!(r.inventory, 1);
    assert_eq!(r.carrying_type, Some(ResourceType::Energy));
    assert!(r.returning_to_base);
    assert_eq!(r.target, Some(tgt));
    assert_eq!(m.resources.get(tgt).unwrap().quantity, 4);
}

#[test]
fn collector_steps_toward_or_drops_target() {
    let mut m = small_map(&[(0, 0, ResourceType::Energy, 5)]);
    let mut known: Knowledge = PositionMap::new();
    known.insert(Position::new(0, 0), (ResourceType::Energy, 5));
    let mut r = Robot::new_collector(4, Position::new(2, 2), Position::new(2, 2));
    assert_eq!(handle_collector_target(&mut r, &mut m, &mut known, Position::new(0, 0)), None);
    assert_eq!(r.position, Position::new(2, 1));
    assert_eq!(r.target, Some(Position::new(0, 0)));
    // walled off: the target is forgotten
    for y in 0..5 {
        m.cells[y][1] = CellType::Obstacle;
    }
    let mut s = Robot::new_collector(5, Position::new(3, 3), Position::new(2, 2));
    assert_eq!(handle_collector_target(&mut s, &mut m, &mut known, Position::new(0, 0)), None);
    assert_eq!(s.position, Position::new(3, 3));
    assert_eq!(s.target, None);
    assert_eq!(known.get(Position::new(0, 0)), None);
}

#[test]
fn loaded_collector_returns_and_delivers() {
    let m = small_map(&[]);
    let mut base = Base::new();
    let mut r = Robot::new_collector(1, Position::new(2, 4), Position::new(2, 2));
    r.inventory = 1;
    r.carrying_type = Some(ResourceType::Crystal);
    r.returning_to_base = true;
    r.target = Some(Position::new(0, 0));
    assert_eq!(handle_return_to_base(&mut r, &m, &mut base), None);
    assert_eq!(r.position, Position::new(2, 3));
    assert_eq!(r.inventory, 1);
    assert_eq!(handle_return_to_base(&mut r, &m, &mut base), None);
    assert_eq!(r.position, Position::new(2, 2));
    let msg = handle_return_to_base(&mut r, &m, &mut base);
    assert_eq!(msg, Some(Message::ResourceDepositedAtBase { robot_id: 1, resource_type: ResourceType::Crystal, quantity: 1 }));
    assert_eq!(base.get_total_crystals(), 1);
    assert_eq!(base.get_total_energy(), 0);
    assert_eq!(r.inventory, 0);
    assert_eq!(r.carrying_type, None);
    assert_eq!(r.target, None);
    assert!(!r.returning_to_base);
}

#[test]
fn unknown_load_is_delivered_as_energy() {
    let m = small_map(&[]);
    let mut base = Base::new();
    let mut r = Robot::new_collector(1, Position::new(2, 2), Position::new(2, 2));
    r.inventory = 3;
    let msg = handle_return_to_base(&mut r, &m, &mut base);
    assert_eq!(msg, Some(Message::ResourceDepositedAtBase { robot_id: 1, resource_type: ResourceType::Energy, quantity: 3 }));
    assert_eq!(base.get_total_energy(), 3);
}

#[test]
fn new_simulation_numbers_scouts_then_collectors() {
    let mut rng = seeded_rng(Some(9));
    let (sim, seeds) = Simulation::new(20, 10, 3, 5, &open_obstacles(20, 10), &mut rng);
    assert_eq!(sim.robots.len(), 8);
    assert_eq!(seeds.len(), 8);
    for (i, r) in sim.robots.iter().enumerate() {
        assert_eq!(r.id, i as u32);
        assert_eq!(r.robot_type, if i < 3 { RobotType::Scout } else { RobotType::Collector });
        assert_eq!(r.position, Position::new(10, 5));
        assert_eq!(r.base_position, Position::new(10, 5));
    }
    assert!(seeds.iter().any(|s| *s != seeds[0]));
    assert_eq!(sim.turn, 0);
    assert!(sim.running);
    assert_eq!(sim.shared_resources.len(), 0);
    assert_eq!(sim.base.get_total_energy(), 0);
}

#[test]
fn tick_counts_turns_and_applies_messages() {
    let mut rng = seeded_rng(Some(9));
    let (mut sim, _) = Simulation::new(20, 10, 1, 1, &open_obstacles(20, 10), &mut rng);
    let p = Position::new(1, 1);
    let q = Position::new(2, 1);
    sim.tick(vec![
        Message::ResourceDiscovered { robot_id: 0, position: p, resource_type: ResourceType::Energy, quantity: 3 },
        Message::ResourceDiscovered { robot_id: 0, position: q, resource_type: ResourceType::Crystal, quantity: 1 },
        Message::ObstacleDiscovered { robot_id: 0, position: Position::new(5, 5) },
    ]);
    assert_eq!(sim.turn, 1);
    assert_eq!(sim.shared_resources.get(p), Some((ResourceType::Energy, 3)));
    sim.tick(vec![
        Message::ResourceCollected { robot_id: 1, position: p, resource_type: ResourceType::Energy, quantity: 1 },
        Message::ResourceCollected { robot_id: 1, position: q, resource_type: ResourceType::Crystal, quantity: 1 },
        Message::ResourceDepositedAtBase { robot_id: 1, resource_type: ResourceType::Energy, quantity: 1 },
    ]);
    assert_eq!(sim.turn, 2);
    assert_eq!(sim.shared_resources.get(p), Some((ResourceType::Energy, 2)));
    assert_eq!(sim.shared_resources.get(q), None);
    sim.tick(Vec::new());
    assert_eq!(sim.turn, 3);
}

#[test]
fn scout_step_moves_one_free_step_and_reports() {
    let mut rng = seeded_rng(Some(4));
    let (mut sim, _) = Simulation::new(5, 5, 1, 0, &open_obstacles(5, 5), &mut rng);
    sim.map = small_map(&[(2, 1, ResourceType::Energy, 6)]);
    sim.map.cells[2][1] = CellType::Obstacle;
    sim.robots[0].position = Position::new(2, 2);
    let msgs = sim.scout_step(0, &mut rng);
    let to = sim.robots[0].position;
    let free = [
        Position::new(1, 1),
        Position::new(2, 1),
        Position::new(3, 1),
        Position::new(3, 2),
        Position::new(1, 3),
        Position::new(2, 3),
        Position::new(3, 3),
    ];
    assert!(free.contains(&to));
    assert_eq!(msgs[0], Message::ObstacleDiscovered { robot_id: 0, position: Position::new(1, 2) });
    if to == Position::new(2, 1) {
        assert_eq!(
            msgs[1],
            Message::ResourceDiscovered { robot_id: 0, position: to, resource_type: ResourceType::Energy, quantity: 6 }
        );
        assert_eq!(msgs.len(), 2);
    } else {
        assert_eq!(msgs.len(), 1);
    }
    // a walled-in scout stays put
    for p in free.iter() {
        sim.map.cells[p.y][p.x] = CellType::Obstacle;
    }
    sim.robots[0].position = Position::new(2, 2);
    let msgs = sim.scout_step(0, &mut rng);
    assert_eq!(sim.robots[0].position, Position::new(2, 2));
    assert_eq!(msgs.len(), 8);
}

#[test]
fn collector_step_fetches_and_delivers() {
    let mut rng = seeded_rng(Some(4));
    let (mut sim, _) = Simulation::new(5, 5, 0, 1, &open_obstacles(5, 5), &mut rng);
    sim.map = small_map(&[(2, 0, ResourceType::Crystal, 2)]);
    // nothing known: the collector waits
    assert_eq!(sim.collector_step(0, &mut rng), None);
    assert_eq!(sim.robots[0].position, Position::new(2, 2));
    sim.tick(vec![Message::ResourceDiscovered {
        robot_id: 9,
        position: Position::new(2, 0),
        resource_type: ResourceType::Crystal,
        quantity: 2,
    }]);
    assert_eq!(sim.collector_step(0, &mut rng), None);
    assert_eq!(sim.robots[0].position, Position::new(2, 1));
    assert_eq!(sim.collector_step(0, &mut rng), None);
    assert_eq!(sim.robots[0].position, Position::new(2, 0));
    let got = sim.collector_step(0, &mut rng);
    assert_eq!(
        got,
        Some(Message::ResourceCollected {
            robot_id: 0,
            position: Position::new(2, 0),
            resource_type: ResourceType::Crystal,
            quantity: 1
        })
    );
    assert_eq!(sim.robots[0].inventory, 1);
    assert_eq!(sim.map.resources.get(Position::new(2, 0)).unwrap().quantity, 1);
    assert_eq!(sim.collector_step(0, &mut rng), None);
    assert_eq!(sim.collector_step(0, &mut rng), None);
    assert_eq!(sim.robots[0].position, Position::new(2, 2));
    let delivered = sim.collector_step(0, &mut rng);
    assert_eq!(
        delivered,
        Some(Message::ResourceDepositedAtBase { robot_id: 0, resource_type: ResourceType::Crystal, quantity: 1 })
    );
    assert_eq!(sim.base.get_total_crystals(), 1);
    assert_eq!(sim.robots[0].inventory, 0);
}

#[test]
fn snapshot_copies_state() {
    let mut rng = seeded_rng(Some(21));
    let (mut sim, _) = Simulation::new(12, 8, 2, 2, &open_obstacles(12, 8), &mut rng);
    sim.tick(Vec::new());
    sim.base.deposit_resource(ResourceType::Energy, 4);
    let snap = sim.get_snapshot();
    assert_eq!(snap.turn, 1);
    assert_eq!(snap.energy, 4);
    assert_eq!(snap.crystals, 0);
    assert_eq!(snap.map.cells, sim.map.cells);
    assert_eq!(snap.robot_positions.len(), 4);
    assert_eq!(snap.robot_positions[2], (2, Position::new(6, 4), RobotType::Collector));
    sim.stop();
    assert!(!sim.running);
}

#[test]
fn glyphs_show_base_then_robots_then_ground() {
    let mut map = small_map(&[(0, 0, ResourceType::Energy, 2), (4, 4, ResourceType::Crystal, 2)]);
    map.cells[0][4] = CellType::Obstacle;
    let snap = RenderSnapshot {
        map,
        robot_positions: vec![
            (0, Position::new(2, 2), RobotType::Scout),
            (1, Position::new(1, 1), RobotType::Scout),
            (2, Position::new(1, 1), RobotType::Collector),
            (3, Position::new(4, 4), RobotType::Scout),
        ],
        energy: 0,
        crystals: 0,
        turn: 0,
    };
    assert_eq!(glyph_at(&snap, Position::new(2, 2)), Glyph::Base);
    assert_eq!(glyph_at(&snap, Position::new(1, 1)), Glyph::Collector);
    assert_eq!(glyph_at(&snap, Position::new(4, 4)), Glyph::Scout);
    assert_eq!(glyph_at(&snap, Position::new(0, 0)), Glyph::Energy);
    assert_eq!(glyph_at(&snap, Position::new(4, 0)), Glyph::Obstacle);
    assert_eq!(glyph_at(&snap, Position::new(3, 3)), Glyph::Empty);
    let symbols: String = [Glyph::Base, Glyph::Scout, Glyph::Collector, Glyph::Obstacle, Glyph::Energy, Glyph::Crystal, Glyph::Empty]
        .iter()
        .map(|g| g.symbol())
        .collect();
    assert_eq!(symbols, "#xo\u{2588}EC\u{b7}");
    assert_eq!(count_robots(&snap.robot_positions), (3, 1));
}

#[test]
fn messages_split_across_ticks_give_same_knowledge() {
    let p = Position::new(3, 3);
    let msgs = vec![
        Message::ResourceDiscovered { robot_id: 0, position: p, resource_type: ResourceType::Crystal, quantity: 4 },
        Message::ResourceCollected { robot_id: 1, position: p, resource_type: ResourceType::Crystal, quantity: 1 },
        Message::ResourceCollected { robot_id: 1, position: p, resource_type: ResourceType::Crystal, quantity: 1 },
    ];
    let mut rng = seeded_rng(Some(6));
    let (mut one, _) = Simulation::new(10, 10, 1, 1, &open_obstacles(10, 10), &mut rng);
    let mut rng2 = seeded_rng(Some(6));
    let (mut two, _) = Simulation::new(10, 10, 1, 1, &open_obstacles(10, 10), &mut rng2);
    one.tick(msgs.clone());
    two.tick(msgs[..1].to_vec());
    two.tick(msgs[1..].to_vec());
    assert_eq!(one.shared_resources.get(p), Some((ResourceType::Crystal, 2)));
    assert_eq!(two.shared_resources.get(p), one.shared_resources.get(p));
}

#[test]
fn deposits_in_any_order_give_the_same_totals() {
    let ds = [
        (ResourceType::Energy, 7),
        (ResourceType::Crystal, 3),
        (ResourceType::Energy, 1),
        (ResourceType::Crystal, 10),
    ];
    let mut a = Base::new();
    for &(rt, q) in ds.iter() {
        a.deposit_resource(rt, q);
    }
    let mut b = Base::new();
    for &(rt, q) in ds.iter().rev() {
        b.deposit_resource(rt, q);
    }
    assert_eq!(a.get_total_energy(), 8);
    assert_eq!(a.get_total_crystals(), 13);
    assert_eq!(b.get_total_energy(), a.get_total_energy());
    assert_eq!(b.get_total_crystals(), a.get_total_crystals());
}

#[test]
fn collector_turns_conserve_units_and_carry_one_at_a_time() {
    let mut rng = seeded_rng(Some(8));
    let (mut sim, _) = Simulation::new(5, 5, 0, 1, &open_obstacles(5, 5), &mut rng);
    sim.map = small_map(&[(0, 2, ResourceType::Energy, 3)]);
    sim.tick(vec![Message::ResourceDiscovered {
        robot_id: 5,
        position: Position::new(0, 2),
        resource_type: ResourceType::Energy,
        quantity: 3,
    }]);
    let total = |sim: &Simulation| {
        let left = sim.map.resources.get(Position::new(0, 2)).map(|r| r.quantity).unwrap_or(0);
        left + sim.robots[0].inventory + sim.base.get_total_energy()
    };
    for _ in 0..40 {
        let before = sim.robots[0].position;
        sim.collector_step(0, &mut rng);
        let after = sim.robots[0].position;
        let dist = (before.x as i64 - after.x as i64).abs() + (before.y as i64 - after.y as i64).abs();
        assert!(dist <= 1);
        assert!(sim.robots[0].inventory <= 1);
        assert_eq!(sim.robots[0].inventory > 0, sim.robots[0].carrying_type.is_some());
        assert_eq!(total(&sim), 3);
    }
    // every unit reached the base and the deposit is gone
    assert_eq!(sim.base.get_total_energy(), 3);
    assert!(sim.map.resources.get(Position::new(0, 2)).is_none());
}

#[test]
fn scout_can_step_diagonally() {
    let mut rng = seeded_rng(Some(12));
    let (mut sim, _) = Simulation::new(5, 5, 1, 0, &open_obstacles(5, 5), &mut rng);
    sim.map = small_map(&[(3, 3, ResourceType::Crystal, 9)]);
    for (x, y) in [(1, 1), (2, 1), (3, 1), (1, 2), (3, 2), (1, 3), (2, 3)] {
        sim.map.cells[y][x] = CellType::Obstacle;
    }
    sim.robots[0].position = Position::new(2, 2);
    let msgs = sim.scout_step(0, &mut rng);
    assert_eq!(sim.robots[0].position, Position::new(3, 3));
    assert_eq!(msgs.len(), 8);
    assert_eq!(
        msgs[7],
        Message::ResourceDiscovered {
            robot_id: 0,
            position: Position::new(3, 3),
            resource_type: ResourceType::Crystal,
            quantity: 9
        }
    );
}

#[test]
fn a_run_keeps_plans_off_obstacles_and_units_conserved() {
    let mut rng = seeded_rng(Some(31));
    let (w, h) = (16, 10);
    let mut mask = vec![vec![false; w]; h];
    for x in 2..14 {
        mask[2][x] = true;
        mask[7][x] = true;
    }
    let (mut sim, _) = Simulation::new(w, h, 3, 2, &mask, &mut rng);
    let total = |sim: &Simulation, kind: ResourceType| -> u64 {
        let mut t = 0u64;
        for i in 0..sim.map.resources.len() {
            let (_, r) = sim.map.resources.entry(i);
            if r.resource_type == kind {
                t += r.quantity as u64;
            }
        }
        for r in sim.robots.iter() {
            if r.inventory > 0 && r.carrying_type == Some(kind) {
                t += r.inventory as u64;
            }
        }
        t + match kind {
            ResourceType::Energy => sim.base.get_total_energy() as u64,
            ResourceType::Crystal => sim.base.get_total_crystals() as u64,
        }
    };
    let energy0 = total(&sim, ResourceType::Energy);
    let crystal0 = total(&sim, ResourceType::Crystal);
    let mut pending: Vec<Message> = Vec::new();
    for _ in 0..200 {
        sim.tick(std::mem::take(&mut pending));
        for i in 0..3 {
            pending.extend(sim.scout_step(i, &mut rng));
        }
        for i in 3..5 {
            let before = sim.robots[i].position;
            if let Some(m) = sim.collector_step(i, &mut rng) {
                pending.push(m);
            }
            let after = sim.robots[i].position;
            assert!(before == after || sim.map.get_cell(after) != CellType::Obstacle);
            assert!(sim.robots[i].inventory <= 1);
        }
        for m in pending.iter() {
            if let Message::ResourceDiscovered { position, .. } = m {
                assert_ne!(sim.map.get_cell(*position), CellType::Obstacle);
            }
        }
        for i in 0..sim.shared_resources.len() {
            let (p, _) = sim.shared_resources.entry(i);
            assert_ne!(sim.map.get_cell(p), CellType::Obstacle);
        }
        assert_eq!(total(&sim, ResourceType::Energy), energy0);
        assert_eq!(total(&sim, ResourceType::Crystal), crystal0);
    }
}

use cell_sim::cell_data::{Cell, Food, RawCell};
use cell_sim::entity_container::{EntityID, Entry};
use cell_sim::events::get_entity_at_pos;
use cell_sim::fixed::UNIT;
use cell_sim::update::{apply_change_update, remove_invalid_ids, World};
use cell_sim::update_data::{AdditionUpdate, CellChangesGroup, ChangeUpdate, WorldUpdates};

fn to_units(v: f64) -> i64 {
    (v * UNIT as f64).round() as i64
}

fn position(world: &World, id: EntityID) -> (f64, f64) {
    let raw = world.cells.get(id).unwrap().raw;
    (raw.x as f64 / UNIT as f64, raw.y as f64 / UNIT as f64)
}

fn distance(world: &World, a: EntityID, b: EntityID) -> f64 {
    let (ax, ay) = position(world, a);
    let (bx, by) = position(world, b);
    ((bx - ax).powi(2) + (by - ay).powi(2)).sqrt()
}

fn triangle(world: &mut World) -> [EntityID; 3] {
    let specs = [((1.5, 1.5), (5.0, 0.0)), ((2.5, 1.7), (-5.0, 5.0)), ((1.7, 2.5), (0.0, -5.0))];
    let mut ids = vec![];
    for ((x, y), (vx, vy)) in specs {
        let cell = Cell::new_with_vel(
            RawCell::new_fat_cell(),
            (to_units(x), to_units(y)),
            UNIT,
            UNIT,
            0,
            (to_units(vx), to_units(vy)),
        );
        ids.push(world.add_cell(cell).unwrap());
    }
    let ids = [ids[0], ids[1], ids[2]];
    for (k, id) in ids.iter().enumerate() {
        let others: Vec<EntityID> = ids.iter().enumerate().filter(|(j, _)| *j != k).map(|(_, o)| *o).collect();
        world.cells.get_mut(*id).unwrap().connected_cells = others;
    }
    ids
}

#[test]
fn connected_triangle_stays_alive_and_settles() {
    let mut world = World::new();
    let ids = triangle(&mut world);
    let pairs = [(0, 1), (0, 2), (1, 2)];
    for (a, b) in pairs {
        assert!((distance(&world, ids[a], ids[b]) - 1.1).abs() < 0.1);
    }
    for _ in 0..30 {
        world.tick(10_000);
        for id in ids {
            let cell = world.cells.get(id).expect("a connected cell disappeared");
            assert!(cell.data.is_active);
            assert_eq!(cell.data.connected_cells.len(), 2);
        }
        // the springs hold every pair near the rest length
        for (a, b) in pairs {
            let d = distance(&world, ids[a], ids[b]);
            assert!((d - 1.1).abs() < 0.25, "distance {d}");
        }
    }
    assert!(world.food.master_list.is_empty());
}

#[test]
fn dead_cell_becomes_food() {
    let mut world = World::new();
    let cell = Cell::new(RawCell::new_fat_cell(), 3_500_000, 2_500_000, 0, 700_000, 400_000);
    let id = world.add_cell(cell).unwrap();
    world.tick(10_000);
    assert!(world.cells.get(id).is_none());
    assert!(!world.cells.id_is_valid(id));
    assert_eq!(world.food.master_list.len(), 1);
    let food = world.food.get((0, 0)).unwrap();
    assert_eq!((food.raw.x, food.raw.y), (3_500_000, 2_500_000));
    assert_eq!((food.data.energy, food.data.material), (700_000, 400_000));
    assert_eq!((food.raw.current_grid_x, food.raw.current_grid_y), (3, 2));
    assert_eq!(food.raw.width, 350_000);
    assert_eq!(world.cells.empty_slots, 1);
}

#[test]
fn connection_to_dead_cell_is_pruned_next_tick() {
    let mut world = World::new();
    let a = world.add_cell(Cell::new(RawCell::new_photosynthesiser_cell(), 10_500_000, 10_500_000, UNIT, UNIT, 0)).unwrap();
    let b = world.add_cell(Cell::new(RawCell::new_photosynthesiser_cell(), 11_600_000, 10_500_000, 0, UNIT, 0)).unwrap();
    world.cells.get_mut(a).unwrap().connected_cells = vec![b];
    world.tick(10_000);
    assert!(world.cells.get(b).is_none());
    assert_eq!(world.cells.get(a).unwrap().data.connected_cells, vec![b]);
    world.tick(10_000);
    assert!(world.cells.get(a).unwrap().data.connected_cells.is_empty());
}

#[test]
fn activity_follows_energy() {
    let mut world = World::new();
    let id = world.add_cell(Cell::new(RawCell::new_fat_cell(), 20_500_000, 20_500_000, UNIT, 0, 0)).unwrap();
    world.tick(10_000);
    assert!(!world.cells.get(id).unwrap().data.is_active);
    world.cells.get_mut(id).unwrap().energy = 600_000;
    world.tick(10_000);
    assert!(world.cells.get(id).unwrap().data.is_active);
}

#[test]
fn food_size_follows_material() {
    let f = Food::new(UNIT, UNIT, 0, 2 * UNIT);
    assert_eq!(f.raw.width, 750_000);
    assert_eq!(f.raw.height, 750_000);
}

#[test]
fn group_becomes_changes() {
    let mut wu = WorldUpdates::new();
    let g = CellChangesGroup { x_vel_change: 1, y_vel_change: 2, energy_change: 3, material_change: 0 };
    g.add_self_to_world_updates(&mut wu, (4, 0));
    assert_eq!(wu.changes, vec![ChangeUpdate::ChangeCellVel(4, 1, 2), ChangeUpdate::ChangeCellEnergy(4, 3)]);
    let g = CellChangesGroup { material_change: 5, ..g };
    g.add_self_to_world_updates(&mut wu, (4, 0));
    assert_eq!(wu.changes.len(), 5);
    assert_eq!(wu.changes[4], ChangeUpdate::ChangeCellMaterial(4, 5));
    wu.push_addition(AdditionUpdate::Food(Food::new(0, 0, 0, 0)));
    assert_eq!(wu.additions.len(), 1);
}

#[test]
fn changes_apply_to_the_addressed_cell() {
    let mut world = World::new();
    let id = world.add_cell(Cell::new(RawCell::new_fat_cell(), 5_500_000, 5_500_000, UNIT, UNIT, 0)).unwrap();
    apply_change_update(ChangeUpdate::ChangeCellEnergy(id.0, -250_000), &mut world.cells);
    apply_change_update(ChangeUpdate::ChangeCellVel(id.0, 10, -20), &mut world.cells);
    apply_change_update(ChangeUpdate::SetCellPos(id.0, 6_000_000, 7_000_000), &mut world.cells);
    apply_change_update(ChangeUpdate::ChangeCellFatExtraMaterial(id.0, 42), &mut world.cells);
    apply_change_update(ChangeUpdate::ChangeCellHealth(9, 42), &mut world.cells);
    let cell: &Entry<Cell> = world.cells.get(id).unwrap();
    assert_eq!(cell.data.energy, 750_000);
    assert_eq!((cell.data.x_vel, cell.data.y_vel), (10, -20));
    assert_eq!((cell.raw.x, cell.raw.y), (6_000_000, 7_000_000));
    assert_eq!((cell.raw.current_grid_x, cell.raw.current_grid_y), (5, 5));
    match cell.data.raw_cell {
        RawCell::Fat(f) => assert_eq!(f.extra_material, 42),
        RawCell::Photosynthesiser => panic!("cell kind changed"),
    }
}

#[test]
fn pruning_drops_only_stale_ids() {
    let mut world = World::new();
    let a = world.add_cell(Cell::new(RawCell::new_fat_cell(), 5_500_000, 5_500_000, UNIT, UNIT, 0)).unwrap();
    let b = world.add_cell(Cell::new(RawCell::new_fat_cell(), 6_500_000, 5_500_000, UNIT, UNIT, 0)).unwrap();
    world.cells.get_mut(a).unwrap().connected_cells = vec![(b.0, b.1 + 1), b, (40, 0)];
    remove_invalid_ids(a, &mut world.cells);
    assert_eq!(world.cells.get(a).unwrap().data.connected_cells, vec![b]);
}

#[test]
fn picking_uses_entity_footprint() {
    let mut world = World::new();
    let id = world.add_cell(Cell::new(RawCell::new_fat_cell(), 5_500_000, 5_500_000, UNIT, UNIT, 0)).unwrap();
    assert_eq!(get_entity_at_pos((5, 5), (5_800_000, 5_500_000), &world.cells), Some(id));
    assert_eq!(get_entity_at_pos((5, 5), (6_100_000, 5_500_000), &world.cells), None);
    assert_eq!(world.neighbors_near((6, 6)), vec![id]);
}

#[test]
fn tick_near_edge_pushes_cell_inward() {
    let mut world = World::new();
    let id = world.add_cell(Cell::new(RawCell::new_photosynthesiser_cell(), 100_000, 5_000_000, UNIT, UNIT, 0)).unwrap();
    world.tick(10_000);
    let cell = world.cells.get(id).unwrap();
    assert_eq!(cell.data.x_vel, 387_298);
    assert_eq!(cell.data.y_vel, 0);
    // drained by use, nothing gained at full energy
    assert_eq!(cell.data.energy, UNIT - 10);
}

#[test]
fn picking_returns_first_hit_in_scan_order() {
    let mut world = World::new();
    let a = world.add_cell(Cell::new(RawCell::new_fat_cell(), 5_900_000, 5_500_000, UNIT, UNIT, 0)).unwrap();
    let b = world.add_cell(Cell::new(RawCell::new_fat_cell(), 6_100_000, 5_500_000, UNIT, UNIT, 0)).unwrap();
    // both footprints hold (6.0, 5.5); column 5 is scanned before column 6
    assert_eq!(get_entity_at_pos((6, 5), (6_000_000, 5_500_000), &world.cells), Some(a));
    assert_ne!(a, b);
}

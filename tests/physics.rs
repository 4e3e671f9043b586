use cell_sim::cell_data::{vec_len, Cell, RawCell, CELL_FAT_ENERGY_RELEASE_THRESHOLD, CELL_FAT_ENERGY_STORE_THRESHOLD};
use cell_sim::entity_container::{EntityContainer, GRID_WIDTH};
use cell_sim::fixed::{fx_add, fx_div, fx_mul, fx_sqrt, fx_sub, LIMIT, UNIT};
use cell_sim::physics::{boundary, collision, drag, fat_flow, integrate, move_point_to_line, repulsion, spring, transfer};
use cell_sim::update::{update_cell_by_type, update_connected_cells, update_single_cell, CellUpdateResult};
use cell_sim::update_data::{CellChangesGroup, ChangeUpdate, WorldUpdates};

#[test]
fn fixed_point_arithmetic() {
    assert_eq!(fx_mul(1_500_000, 2_000_000), 3_000_000);
    assert_eq!(fx_mul(-1_500_000, 2_000_001), -3_000_001);
    assert_eq!(fx_div(1_000_000, 3_000_000), 333_333);
    assert_eq!(fx_div(-1_000_000, 3_000_000), -333_333);
    assert_eq!(fx_div(5, 0), 0);
    assert_eq!(fx_add(LIMIT, 1), LIMIT);
    assert_eq!(fx_sub(-LIMIT, 1), -LIMIT);
    assert_eq!(fx_mul(LIMIT, LIMIT), LIMIT);
    assert_eq!(fx_sqrt(4_000_000), 2_000_000);
    assert_eq!(fx_sqrt(2_000_000), 1_414_213);
    assert_eq!(fx_sqrt(0), 0);
    assert_eq!(vec_len((3_000_000, 4_000_000)), 5_000_000);
}

#[test]
fn integrate_clamps_into_grid() {
    assert_eq!(integrate(1_500_000, 5_000_000, 10_000, GRID_WIDTH), 1_550_000);
    assert_eq!(integrate(10_000, -5_000_000, 10_000, GRID_WIDTH), 0);
    assert_eq!(integrate(127_990_000, 5_000_000, 10_000, GRID_WIDTH), 128 * UNIT - 1);
}

#[test]
fn drag_is_cubic_and_opposes_motion() {
    assert_eq!(drag(2_000_000, 500_000), -200_000);
    assert_eq!(drag(-2_000_000, 500_000), 200_000);
    assert_eq!(drag(0, 500_000), 0);
}

#[test]
fn boundary_pushes_back_inside() {
    // half a unit from the low edge: depth 0.4, sqrt(0.6) * 50 * 0.01
    assert_eq!(boundary(100_000, 10_000, GRID_WIDTH), 387_298);
    assert_eq!(boundary(127_900_000, 10_000, GRID_WIDTH), -387_298);
    assert_eq!(boundary(64_000_000, 10_000, GRID_WIDTH), 0);
    assert_eq!(repulsion(400_000, 10_000), 387_298);
    assert_eq!(repulsion(UNIT, 10_000), 0);
}

#[test]
fn cell_near_edge_gets_positive_x_velocity_change() {
    let mut cells: EntityContainer<Cell> = EntityContainer::new();
    let id = cells.add_entity(Cell::new(RawCell::new_photosynthesiser_cell(), 100_000, 5_500_000, UNIT, UNIT, 0)).unwrap();
    let mut wu = WorldUpdates::new();
    let mut group = CellChangesGroup::new();
    let r = update_single_cell(id, &cells, &mut wu, &mut group, 10_000);
    assert_eq!(r, CellUpdateResult::Alive);
    assert!(group.x_vel_change > 0);
    assert_eq!(group.x_vel_change, 387_298);
    assert_eq!(group.y_vel_change, 0);
    assert_eq!(wu.changes[0], ChangeUpdate::SetCellPos(id.0, 100_000, 5_500_000));
}

#[test]
fn fat_flow_band() {
    let st = CELL_FAT_ENERGY_STORE_THRESHOLD;
    let rt = CELL_FAT_ENERGY_RELEASE_THRESHOLD;
    assert_eq!(fat_flow(600_000, 300_000, st, rt, 100_000, 100_000, 10_000), 0);
    // above the store threshold: min(0.9 - 0.75, 0.1) * 0.01
    assert_eq!(fat_flow(900_000, 0, st, rt, 100_000, 100_000, 10_000), 1_000);
    // below the release threshold: min(0.05, 0.1) * 0.01, released
    assert_eq!(fat_flow(400_000, 50_000, st, rt, 100_000, 100_000, 10_000), -500);
}

#[test]
fn fat_cell_does_not_chatter_inside_band() {
    let mut cells: EntityContainer<Cell> = EntityContainer::new();
    let id = cells.add_entity(Cell::new(RawCell::new_fat_cell(), 5_500_000, 5_500_000, UNIT, 600_000, 600_000)).unwrap();
    if let RawCell::Fat(f) = &mut cells.get_mut(id).unwrap().raw_cell {
        f.extra_energy = 300_000;
    }
    let trace: [i64; 8] = [620_000, 560_000, 700_000, 510_000, 740_000, 625_000, 501_000, 749_000];
    let mut toggles = 0;
    for level in trace {
        cells.get_mut(id).unwrap().energy = level;
        let mut wu = WorldUpdates::new();
        let mut group = CellChangesGroup::new();
        update_cell_by_type(id, &cells, &mut wu, &mut group, 10_000);
        toggles += wu.changes.iter().filter(|c| matches!(c, ChangeUpdate::ChangeCellFatExtraEnergy(..))).count();
        assert_eq!(group.energy_change, 0);
    }
    assert_eq!(toggles, 0);
    // outside the band it stores, then releases
    cells.get_mut(id).unwrap().energy = 900_000;
    let mut wu = WorldUpdates::new();
    let mut group = CellChangesGroup::new();
    update_cell_by_type(id, &cells, &mut wu, &mut group, 10_000);
    assert_eq!(wu.changes, vec![ChangeUpdate::ChangeCellFatExtraEnergy(id.0, 1_000)]);
    assert_eq!(group.energy_change, -1_000);
    cells.get_mut(id).unwrap().energy = 400_000;
    let mut wu = WorldUpdates::new();
    let mut group = CellChangesGroup::new();
    update_cell_by_type(id, &cells, &mut wu, &mut group, 10_000);
    assert_eq!(wu.changes, vec![ChangeUpdate::ChangeCellFatExtraEnergy(id.0, -1_000)]);
    assert_eq!(group.energy_change, 1_000);
}

#[test]
fn photosynthesiser_saturates_at_one() {
    let mut cells: EntityContainer<Cell> = EntityContainer::new();
    let id = cells.add_entity(Cell::new(RawCell::new_photosynthesiser_cell(), 5_500_000, 5_500_000, UNIT, 990_000, 0)).unwrap();
    let mut wu = WorldUpdates::new();
    let mut group = CellChangesGroup::new();
    update_cell_by_type(id, &cells, &mut wu, &mut group, 10_000);
    assert_eq!(group.energy_change, 100);
    cells.get_mut(id).unwrap().energy = UNIT;
    let mut group = CellChangesGroup::new();
    update_cell_by_type(id, &cells, &mut wu, &mut group, 10_000);
    assert_eq!(group.energy_change, 0);
}

#[test]
fn transfer_amounts() {
    assert_eq!(transfer(800_000, 200_000, 25_000, 250_000, 10_000), 1_500);
    assert_eq!(transfer(210_000, 200_000, 25_000, 250_000, 10_000), 0);
    assert_eq!(transfer(200_000, 800_000, 25_000, 250_000, 10_000), 0);
}

#[test]
fn connection_transfer_conserves_the_pair_total() {
    let mut cells: EntityContainer<Cell> = EntityContainer::new();
    let a = cells.add_entity(Cell::new(RawCell::new_photosynthesiser_cell(), 5_500_000, 5_500_000, UNIT, 800_000, 600_000)).unwrap();
    let b = cells.add_entity(Cell::new(RawCell::new_photosynthesiser_cell(), 6_600_000, 5_500_000, UNIT, 200_000, 100_000)).unwrap();
    cells.get_mut(a).unwrap().connected_cells = vec![b];
    cells.get_mut(b).unwrap().connected_cells = vec![a];
    let mut wu = WorldUpdates::new();
    let mut group = CellChangesGroup::new();
    update_connected_cells(a, &cells, &mut wu, &mut group, 10_000);
    let mut credited_energy = 0;
    let mut credited_material = 0;
    for c in &wu.changes {
        match c {
            ChangeUpdate::ChangeCellEnergy(i, v) if *i == b.0 => credited_energy += v,
            ChangeUpdate::ChangeCellMaterial(i, v) if *i == b.0 => credited_material += v,
            _ => {}
        }
    }
    assert_eq!(credited_energy, 1_500);
    assert_eq!(credited_material, 500);
    assert_eq!(group.energy_change + credited_energy, 0);
    assert_eq!(group.material_change + credited_material, 0);
    // the poorer cell gives nothing back
    let mut wu = WorldUpdates::new();
    let mut group = CellChangesGroup::new();
    update_connected_cells(b, &cells, &mut wu, &mut group, 10_000);
    assert!(wu.changes.is_empty());
    assert_eq!(group.energy_change, 0);
}

#[test]
fn spring_at_rest_length_is_still() {
    assert_eq!(spring((1_100_000, 0), (0, 0), 10_000), (0, 0));
    // compressed spring pushes away from the other cell
    let (fx, fy) = spring((1_000_000, 0), (0, 0), 10_000);
    assert_eq!((fx, fy), (-10_000, 0));
}

#[test]
fn projection_keeps_component_along_line() {
    assert_eq!(move_point_to_line((3_000_000, 4_000_000), (1_000_000, 0)), (3_000_000, 0));
    assert_eq!(move_point_to_line((3_000_000, 4_000_000), (0, 0)), (0, 0));
}

#[test]
fn collision_repels_close_cells_only() {
    assert_eq!(collision((2_000_000, 0), 10_000), (0, 0));
    // distance 0.75: sqrt(0.25) * 50 = 25; 0.75 * 25 * 0.01
    assert_eq!(collision((750_000, 0), 10_000), (-187_500, 0));
}

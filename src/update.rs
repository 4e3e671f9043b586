use vstd::prelude::*;
use crate::cell_data::{
    Cell, Food, RawCell, CELL_ENERGY_USE_RATE, CELL_HEALING_ENERGY_COST, CELL_HEALING_MATERIAL_COST,
    CELL_ENERGY_TRANSFER_RATE, CELL_ENERGY_TRANSFER_THRESHOLD, CELL_MATERIAL_TRANSFER_RATE,
    CELL_MATERIAL_TRANSFER_THRESHOLD, delta_spec,
};
use crate::entity_container::{
    near_ids,
    Entry, EntityContainer, EntityID, RawEntity, GRID_WIDTH, GRID_HEIGHT, get_entity_ids_near_pos, near_axis,
    lemma_same_layout_wf, lemma_add_grows, MAX_ENTITIES_COUNT,
};
use crate::fixed::{UNIT, LIMIT, in_range, add_spec, mul_spec, fx_add, fx_sub, fx_mul, fx_min};
use crate::physics::{
    integrate, integrate_spec, drag, drag_spec, boundary, boundary_spec, heal_spec, fat_flow, fat_flow_spec,
    photosynthesis_spec, transfer, transfer_spec, spring, spring_spec, collision, collision_spec,
};
use crate::update_data::{AdditionUpdate, CellChangesGroup, ChangeUpdate, WorldUpdates};
use rayon::iter::{IndexedParallelIterator, IntoParallelIterator, ParallelIterator};

verus! {

#[derive(Debug, Clone, Copy, PartialEq, Eq, Structural)]
pub enum CellUpdateResult {
    Alive,
    Removed,
}

/// Every quantity of a stored cell, its position included, lies in the representable band.
pub open spec fn entry_ok(e: Entry<Cell>) -> bool {
    e.data.in_bounds() && in_range(e.raw.x as int) && in_range(e.raw.y as int)
}

/// Every live cell of the container is in bounds.
pub open spec fn cells_ok(cells: EntityContainer<Cell>) -> bool {
    forall|i: int| #[trigger] cells.live(i) ==> entry_ok(cells.entry(i))
}

/// Every connection of every live cell resolves.
pub open spec fn connections_valid(cells: EntityContainer<Cell>) -> bool {
    forall|i: int, k: int|
        cells.live(i) && 0 <= k < cells.entry(i).data.connected_cells@.len() ==> cells.id_valid_spec(
            #[trigger] cells.entry(i).data.connected_cells@[k],
        )
}

/// Every change of the sequence carries quantities in the representable band.
pub open spec fn all_in_bounds(s: Seq<ChangeUpdate>) -> bool {
    forall|k: int| 0 <= k < s.len() ==> (#[trigger] s[k]).in_bounds()
}

pub open spec fn pos_of(e: Entry<Cell>) -> (int, int) {
    (e.raw.x as int, e.raw.y as int)
}

pub open spec fn vel_of(e: Entry<Cell>) -> (int, int) {
    (e.data.x_vel as int, e.data.y_vel as int)
}

/// The food a dead cell turns into.
pub open spec fn food_of(e: Entry<Cell>) -> Entry<Food> {
    let size = Food::size_spec(e.data.material as int) as i64;
    Entry { raw: RawEntity::new_spec(e.raw.x, e.raw.y, size, size), data: Food { energy: e.data.energy, material: e.data.material } }
}

/// Changes the first stage queues for cell `i`: its integrated position, its activity
/// when that no longer matches its energy (a cell is active exactly while its energy is
/// positive), then either its removal (no health left) or its healing (active and hurt).
pub open spec fn single_changes(i: usize, e: Entry<Cell>, dt: int) -> Seq<ChangeUpdate> {
    let c = e.data;
    let pos = seq![
        ChangeUpdate::SetCellPos(
            i,
            integrate_spec(e.raw.x as int, c.x_vel as int, dt, GRID_WIDTH as int) as i64,
            integrate_spec(e.raw.y as int, c.y_vel as int, dt, GRID_HEIGHT as int) as i64,
        ),
    ];
    let act = if c.is_active != (c.energy > 0) {
        pos.push(ChangeUpdate::SetCellIsActive(i, c.energy > 0))
    } else {
        pos
    };
    if c.health <= 0 {
        act.push(ChangeUpdate::SetCellShouldBeRemoved(i, true))
    } else if c.is_active && c.health < UNIT {
        act.push(ChangeUpdate::ChangeCellHealth(i, mul_spec(heal_spec(c.health as int), dt) as i64))
    } else {
        act
    }
}

/// The group after the first stage: drag and edge confinement on the velocity; for a
/// living active cell also the constant energy drain and the cost of healing.
pub open spec fn single_group(g: CellChangesGroup, e: Entry<Cell>, dt: int) -> CellChangesGroup {
    let c = e.data;
    let xv = add_spec(
        add_spec(g.x_vel_change as int, drag_spec(c.x_vel as int, dt)),
        boundary_spec(e.raw.x as int, dt, GRID_WIDTH as int),
    );
    let yv = add_spec(
        add_spec(g.y_vel_change as int, drag_spec(c.y_vel as int, dt)),
        boundary_spec(e.raw.y as int, dt, GRID_HEIGHT as int),
    );
    let moved = CellChangesGroup { x_vel_change: xv as i64, y_vel_change: yv as i64, ..g };
    if c.health <= 0 || !c.is_active {
        moved
    } else {
        let drained = add_spec(g.energy_change as int, -mul_spec(CELL_ENERGY_USE_RATE as int, dt));
        if c.health < UNIT {
            let h = heal_spec(c.health as int);
            CellChangesGroup {
                energy_change: add_spec(drained, -mul_spec(mul_spec(h, CELL_HEALING_ENERGY_COST as int), dt)) as i64,
                material_change: add_spec(
                    g.material_change as int,
                    -mul_spec(mul_spec(h, CELL_HEALING_MATERIAL_COST as int), dt),
                ) as i64,
                ..moved
            }
        } else {
            CellChangesGroup { energy_change: drained as i64, ..moved }
        }
    }
}

fn entry_at<T>(cells: &EntityContainer<T>, i: usize) -> (r: &Entry<T>)
    requires
        cells.live(i as int),
    ensures
        *r == cells.entry(i as int),
{
    cells.master_list[i].0.as_ref().unwrap()
}

/// First stage of a cell's tick: motion, drag, confinement, activity, death (which queues
/// the cell's removal and its food and ends its tick) and, while active, metabolism.
pub fn update_single_cell(
    curr_cell_id: EntityID,
    cells: &EntityContainer<Cell>,
    world_updates: &mut WorldUpdates,
    cell_changes_group: &mut CellChangesGroup,
    dt: i64,
) -> (r: CellUpdateResult)
    requires
        cells.live(curr_cell_id.0 as int),
        entry_ok(cells.entry(curr_cell_id.0 as int)),
        old(cell_changes_group).in_bounds(),
        in_range(dt as int),
        all_in_bounds(old(world_updates).changes@),
    ensures
        all_in_bounds(final(world_updates).changes@),
        ({
            let e = cells.entry(curr_cell_id.0 as int);
            &&& r == if e.data.health <= 0 { CellUpdateResult::Removed } else { CellUpdateResult::Alive }
            &&& final(world_updates).changes@ == old(world_updates).changes@ + single_changes(curr_cell_id.0, e, dt as int)
            &&& final(world_updates).additions@ == if e.data.health <= 0 {
                old(world_updates).additions@.push(AdditionUpdate::Food(food_of(e)))
            } else {
                old(world_updates).additions@
            }
            &&& *final(cell_changes_group) == single_group(*old(cell_changes_group), e, dt as int)
            &&& final(cell_changes_group).in_bounds()
        }),
{
    let i = curr_cell_id.0;
    let cell = entry_at(cells, i);
    let ghost changes0 = world_updates.changes@;

    // motion
    let x = integrate(cell.raw.x, cell.data.x_vel, dt, GRID_WIDTH);
    let y = integrate(cell.raw.y, cell.data.y_vel, dt, GRID_HEIGHT);
    world_updates.push_change(ChangeUpdate::SetCellPos(i, x, y));

    // drag
    cell_changes_group.x_vel_change = fx_add(cell_changes_group.x_vel_change, drag(cell.data.x_vel, dt));
    cell_changes_group.y_vel_change = fx_add(cell_changes_group.y_vel_change, drag(cell.data.y_vel, dt));

    // confinement
    cell_changes_group.x_vel_change = fx_add(cell_changes_group.x_vel_change, boundary(cell.raw.x, dt, GRID_WIDTH));
    cell_changes_group.y_vel_change = fx_add(cell_changes_group.y_vel_change, boundary(cell.raw.y, dt, GRID_HEIGHT));

    // activity follows energy
    let has_energy = cell.data.energy > 0;
    if cell.data.is_active != has_energy {
        world_updates.push_change(ChangeUpdate::SetCellIsActive(i, has_energy));
    }

    // dying
    if cell.data.health <= 0 {
        world_updates.push_change(ChangeUpdate::SetCellShouldBeRemoved(i, true));
        world_updates.push_addition(AdditionUpdate::Food(Food::from_cell(cell)));
        proof {
            assert(world_updates.changes@ =~= changes0 + single_changes(i, cells.entry(i as int), dt as int));
        }
        return CellUpdateResult::Removed;
    }
    if !cell.data.is_active {
        proof {
            assert(world_updates.changes@ =~= changes0 + single_changes(i, cells.entry(i as int), dt as int));
        }
        return CellUpdateResult::Alive;
    }

    // energy drain
    cell_changes_group.energy_change = fx_sub(cell_changes_group.energy_change, fx_mul(CELL_ENERGY_USE_RATE, dt));

    // healing
    if cell.data.health < UNIT {
        let heal_amount = fx_min(fx_sub(UNIT, cell.data.health), crate::cell_data::CELL_HEALING_RATE);
        world_updates.push_change(ChangeUpdate::ChangeCellHealth(i, fx_mul(heal_amount, dt)));
        cell_changes_group.energy_change = fx_sub(
            cell_changes_group.energy_change,
            fx_mul(fx_mul(heal_amount, CELL_HEALING_ENERGY_COST), dt),
        );
        cell_changes_group.material_change = fx_sub(
            cell_changes_group.material_change,
            fx_mul(fx_mul(heal_amount, CELL_HEALING_MATERIAL_COST), dt),
        );
    }
    proof {
        assert(world_updates.changes@ =~= changes0 + single_changes(i, cells.entry(i as int), dt as int));
    }
    CellUpdateResult::Alive
}

/// Whether an active fat cell's level moves between its store and its buffer this tick.
pub open spec fn fat_moves(level: int, store_threshold: int, release_threshold: int) -> bool {
    level > store_threshold || level < release_threshold
}

/// Changes the type-specific stage queues for cell `i`: a fat cell's buffer movements.
pub open spec fn type_changes(i: usize, e: Entry<Cell>, dt: int) -> Seq<ChangeUpdate> {
    let c = e.data;
    if !c.is_active {
        seq![]
    } else {
        match c.raw_cell {
            RawCell::Fat(f) => {
                let ef = fat_flow_spec(c.energy as int, f.extra_energy as int, f.energy_store_threshold as int, f.energy_release_threshold as int, f.energy_store_rate as int, f.energy_release_rate as int, dt);
                let mf = fat_flow_spec(c.material as int, f.extra_material as int, f.material_store_threshold as int, f.material_release_threshold as int, f.material_store_rate as int, f.material_release_rate as int, dt);
                let es = if fat_moves(c.energy as int, f.energy_store_threshold as int, f.energy_release_threshold as int) {
                    seq![ChangeUpdate::ChangeCellFatExtraEnergy(i, ef as i64)]
                } else {
                    seq![]
                };
                if fat_moves(c.material as int, f.material_store_threshold as int, f.material_release_threshold as int) {
                    es.push(ChangeUpdate::ChangeCellFatExtraMaterial(i, mf as i64))
                } else {
                    es
                }
            },
            RawCell::Photosynthesiser => seq![],
        }
    }
}

/// The group after the type-specific stage: what a fat cell buffers leaves its main
/// stores (what it releases returns to them); a photosynthesiser gains energy.
pub open spec fn type_group(g: CellChangesGroup, e: Entry<Cell>, dt: int) -> CellChangesGroup {
    let c = e.data;
    if !c.is_active {
        g
    } else {
        match c.raw_cell {
            RawCell::Fat(f) => {
                let ef = fat_flow_spec(c.energy as int, f.extra_energy as int, f.energy_store_threshold as int, f.energy_release_threshold as int, f.energy_store_rate as int, f.energy_release_rate as int, dt);
                let mf = fat_flow_spec(c.material as int, f.extra_material as int, f.material_store_threshold as int, f.material_release_threshold as int, f.material_store_rate as int, f.material_release_rate as int, dt);
                CellChangesGroup {
                    energy_change: add_spec(g.energy_change as int, -ef) as i64,
                    material_change: add_spec(g.material_change as int, -mf) as i64,
                    ..g
                }
            },
            RawCell::Photosynthesiser => CellChangesGroup {
                energy_change: add_spec(g.energy_change as int, photosynthesis_spec(c.energy as int, dt)) as i64,
                ..g
            },
        }
    }
}

/// Type-specific stage of an active cell's tick: fat buffering, or photosynthesis.
pub fn update_cell_by_type(
    curr_cell_id: EntityID,
    cells: &EntityContainer<Cell>,
    world_updates: &mut WorldUpdates,
    cell_changes_group: &mut CellChangesGroup,
    dt: i64,
)
    requires
        cells.live(curr_cell_id.0 as int),
        entry_ok(cells.entry(curr_cell_id.0 as int)),
        old(cell_changes_group).in_bounds(),
        in_range(dt as int),
        all_in_bounds(old(world_updates).changes@),
    ensures
        all_in_bounds(final(world_updates).changes@),
        final(world_updates).changes@ == old(world_updates).changes@ + type_changes(curr_cell_id.0, cells.entry(curr_cell_id.0 as int), dt as int),
        final(world_updates).additions@ == old(world_updates).additions@,
        *final(cell_changes_group) == type_group(*old(cell_changes_group), cells.entry(curr_cell_id.0 as int), dt as int),
        final(cell_changes_group).in_bounds(),
{
    let i = curr_cell_id.0;
    let cell = entry_at(cells, i);
    let ghost changes0 = world_updates.changes@;
    if !cell.data.is_active {
        proof {
            assert(world_updates.changes@ =~= changes0 + type_changes(i, cells.entry(i as int), dt as int));
        }
        return;
    }
    match &cell.data.raw_cell {
        RawCell::Fat(f) => {
            let energy = cell.data.energy;
            let material = cell.data.material;
            let ef = fat_flow(energy, f.extra_energy, f.energy_store_threshold, f.energy_release_threshold, f.energy_store_rate, f.energy_release_rate, dt);
            if energy > f.energy_store_threshold || energy < f.energy_release_threshold {
                world_updates.push_change(ChangeUpdate::ChangeCellFatExtraEnergy(i, ef));
            }
            cell_changes_group.energy_change = fx_sub(cell_changes_group.energy_change, ef);
            let mf = fat_flow(material, f.extra_material, f.material_store_threshold, f.material_release_threshold, f.material_store_rate, f.material_release_rate, dt);
            if material > f.material_store_threshold || material < f.material_release_threshold {
                world_updates.push_change(ChangeUpdate::ChangeCellFatExtraMaterial(i, mf));
            }
            cell_changes_group.material_change = fx_sub(cell_changes_group.material_change, mf);
        },
        RawCell::Photosynthesiser => {
            if cell.data.energy < UNIT {
                let amount = fx_mul(fx_min(fx_sub(UNIT, cell.data.energy), crate::cell_data::CELL_PHOTOSYNTHESISER_RATE), dt);
                cell_changes_group.energy_change = fx_add(cell_changes_group.energy_change, amount);
            }
        },
    }
    proof {
        assert(world_updates.changes@ =~= changes0 + type_changes(i, cells.entry(i as int), dt as int));
    }
}

/// Group after the effect of one connection to `o`: the spring on the velocity and, for
/// an active cell, what it gives away downhill.
pub open spec fn conn_group_step(e: Entry<Cell>, o: Entry<Cell>, g: CellChangesGroup, dt: int) -> CellChangesGroup {
    let sp = spring_spec(delta_spec(pos_of(e), pos_of(o)), delta_spec(vel_of(e), vel_of(o)), dt);
    let moved = CellChangesGroup {
        x_vel_change: add_spec(g.x_vel_change as int, sp.0) as i64,
        y_vel_change: add_spec(g.y_vel_change as int, sp.1) as i64,
        ..g
    };
    if !e.data.is_active {
        moved
    } else {
        let te = transfer_spec(e.data.energy as int, o.data.energy as int, CELL_ENERGY_TRANSFER_THRESHOLD as int, CELL_ENERGY_TRANSFER_RATE as int, dt);
        let tm = transfer_spec(e.data.material as int, o.data.material as int, CELL_MATERIAL_TRANSFER_THRESHOLD as int, CELL_MATERIAL_TRANSFER_RATE as int, dt);
        CellChangesGroup {
            energy_change: add_spec(g.energy_change as int, -te) as i64,
            material_change: add_spec(g.material_change as int, -tm) as i64,
            ..moved
        }
    }
}

/// Credits queued for the cell in slot `oi` from one connection: what an active cell
/// gives it.
pub open spec fn conn_changes_step(e: Entry<Cell>, o: Entry<Cell>, oi: usize, dt: int) -> Seq<ChangeUpdate> {
    if !e.data.is_active {
        seq![]
    } else {
        let te = transfer_spec(e.data.energy as int, o.data.energy as int, CELL_ENERGY_TRANSFER_THRESHOLD as int, CELL_ENERGY_TRANSFER_RATE as int, dt);
        let tm = transfer_spec(e.data.material as int, o.data.material as int, CELL_MATERIAL_TRANSFER_THRESHOLD as int, CELL_MATERIAL_TRANSFER_RATE as int, dt);
        let es = if e.data.energy > add_spec(o.data.energy as int, CELL_ENERGY_TRANSFER_THRESHOLD as int) {
            seq![ChangeUpdate::ChangeCellEnergy(oi, te as i64)]
        } else {
            seq![]
        };
        if e.data.material > add_spec(o.data.material as int, CELL_MATERIAL_TRANSFER_THRESHOLD as int) {
            es.push(ChangeUpdate::ChangeCellMaterial(oi, tm as i64))
        } else {
            es
        }
    }
}

/// Group and queued credits after the connections `conns`, in order.
pub open spec fn conn_fold(cells: EntityContainer<Cell>, e: Entry<Cell>, g: CellChangesGroup, conns: Seq<EntityID>, dt: int) -> (CellChangesGroup, Seq<ChangeUpdate>)
    decreases conns.len(),
{
    if conns.len() == 0 {
        (g, seq![])
    } else {
        let prev = conn_fold(cells, e, g, conns.drop_last(), dt);
        let o = cells.entry(conns.last().0 as int);
        (conn_group_step(e, o, prev.0, dt), prev.1 + conn_changes_step(e, o, conns.last().0, dt))
    }
}

/// Connection stage of a cell's tick: springs to, and downhill transfers toward, every
/// connected cell.
pub fn update_connected_cells(
    curr_cell_id: EntityID,
    cells: &EntityContainer<Cell>,
    world_updates: &mut WorldUpdates,
    cell_changes_group: &mut CellChangesGroup,
    dt: i64,
)
    requires
        cells.live(curr_cell_id.0 as int),
        cells_ok(*cells),
        connections_valid(*cells),
        old(cell_changes_group).in_bounds(),
        in_range(dt as int),
        all_in_bounds(old(world_updates).changes@),
    ensures
        all_in_bounds(final(world_updates).changes@),
        ({
            let e = cells.entry(curr_cell_id.0 as int);
            let f = conn_fold(*cells, e, *old(cell_changes_group), e.data.connected_cells@, dt as int);
            &&& *final(cell_changes_group) == f.0
            &&& final(world_updates).changes@ == old(world_updates).changes@ + f.1
        }),
        final(world_updates).additions@ == old(world_updates).additions@,
        final(cell_changes_group).in_bounds(),
{
    let i = curr_cell_id.0;
    let cell = entry_at(cells, i);
    let ghost e = cells.entry(i as int);
    let ghost g0 = *cell_changes_group;
    let ghost changes0 = world_updates.changes@;
    assert(entry_ok(e));
    let n = cell.data.connected_cells.len();
    let mut k: usize = 0;
    while k < n
        invariant
            *cell == e,
            e == cells.entry(i as int),
            cells.live(i as int),
            entry_ok(e),
            cells_ok(*cells),
            connections_valid(*cells),
            n == e.data.connected_cells@.len(),
            k <= n,
            in_range(dt as int),
            cell_changes_group.in_bounds(),
            all_in_bounds(world_updates.changes@),
            world_updates.additions@ == old(world_updates).additions@,
            ({
                let f = conn_fold(*cells, e, g0, e.data.connected_cells@.subrange(0, k as int), dt as int);
                &&& *cell_changes_group == f.0
                &&& world_updates.changes@ == changes0 + f.1
            }),
        decreases n - k,
    {
        let connected_cell_id = cell.data.connected_cells[k];
        assert(cells.id_valid_spec(e.data.connected_cells@[k as int]));
        let other = entry_at(cells, connected_cell_id.0);
        assert(entry_ok(*other));
        let ghost before = world_updates.changes@;
        let ghost gb = *cell_changes_group;

        // spring
        let dp = cell.pos_change_to(other);
        let dvr = cell.vel_change_to(other);
        let sp = spring(dp, dvr, dt);
        cell_changes_group.x_vel_change = fx_add(cell_changes_group.x_vel_change, sp.0);
        cell_changes_group.y_vel_change = fx_add(cell_changes_group.y_vel_change, sp.1);

        // transfers
        if cell.data.is_active {
            if cell.data.energy > fx_add(other.data.energy, CELL_ENERGY_TRANSFER_THRESHOLD) {
                let amount = transfer(cell.data.energy, other.data.energy, CELL_ENERGY_TRANSFER_THRESHOLD, CELL_ENERGY_TRANSFER_RATE, dt);
                cell_changes_group.energy_change = fx_sub(cell_changes_group.energy_change, amount);
                world_updates.push_change(ChangeUpdate::ChangeCellEnergy(connected_cell_id.0, amount));
            }
            if cell.data.material > fx_add(other.data.material, CELL_MATERIAL_TRANSFER_THRESHOLD) {
                let amount = transfer(cell.data.material, other.data.material, CELL_MATERIAL_TRANSFER_THRESHOLD, CELL_MATERIAL_TRANSFER_RATE, dt);
                cell_changes_group.material_change = fx_sub(cell_changes_group.material_change, amount);
                world_updates.push_change(ChangeUpdate::ChangeCellMaterial(connected_cell_id.0, amount));
            }
        }
        proof {
            let conns = e.data.connected_cells@;
            assert(conns.subrange(0, k + 1).drop_last() =~= conns.subrange(0, k as int));
            assert(conns.subrange(0, k + 1).last() == connected_cell_id);
            assert(*cell_changes_group == conn_group_step(e, *other, gb, dt as int));
            assert(world_updates.changes@ =~= before + conn_changes_step(e, *other, connected_cell_id.0, dt as int));
            let prev = conn_fold(*cells, e, g0, conns.subrange(0, k as int), dt as int);
            assert(changes0 + (prev.1 + conn_changes_step(e, *other, connected_cell_id.0, dt as int))
                =~= (changes0 + prev.1) + conn_changes_step(e, *other, connected_cell_id.0, dt as int));
        }
        k = k + 1;
    }
    proof {
        assert(e.data.connected_cells@.subrange(0, n as int) =~= e.data.connected_cells@);
    }
}

/// Group after the soft collisions with the cells `ids` (the cell in slot `i` itself is
/// skipped), in order.
pub open spec fn near_fold(cells: EntityContainer<Cell>, e: Entry<Cell>, i: usize, g: CellChangesGroup, ids: Seq<EntityID>, dt: int) -> CellChangesGroup
    decreases ids.len(),
{
    if ids.len() == 0 {
        g
    } else {
        let prev = near_fold(cells, e, i, g, ids.drop_last(), dt);
        let id = ids.last();
        if id.0 == i {
            prev
        } else {
            let c = collision_spec(delta_spec(pos_of(e), pos_of(cells.entry(id.0 as int))), dt);
            CellChangesGroup {
                x_vel_change: add_spec(prev.x_vel_change as int, c.0) as i64,
                y_vel_change: add_spec(prev.y_vel_change as int, c.1) as i64,
                ..prev
            }
        }
    }
}

/// The neighbour list the collision stage of the cell in slot `i` walks.
pub open spec fn cell_near_ids(cells: EntityContainer<Cell>, i: int) -> Seq<EntityID> {
    near_ids(cells, cells.raw_of(i).current_grid_x as int, cells.raw_of(i).current_grid_y as int)
}

/// `ids` lists, once each, exactly the entities filed in the 3x3 block of buckets
/// around grid cell `(gx, gy)`.
pub open spec fn is_near_list<T>(c: EntityContainer<T>, gx: int, gy: int, ids: Seq<EntityID>) -> bool {
    &&& ids.no_duplicates()
    &&& forall|id: EntityID| #[trigger] ids.contains(id) <==> {
        &&& c.id_valid_spec(id)
        &&& near_axis(c.raw_of(id.0 as int).current_grid_x as int, gx, GRID_WIDTH as int)
        &&& near_axis(c.raw_of(id.0 as int).current_grid_y as int, gy, GRID_HEIGHT as int)
    }
}

/// Collision stage of a cell's tick: a soft repulsion from every other cell in the
/// neighbouring buckets closer than one unit.
pub fn update_nearby_cells(
    curr_cell_id: EntityID,
    cells: &EntityContainer<Cell>,
    world_updates: &mut WorldUpdates,
    cell_changes_group: &mut CellChangesGroup,
    dt: i64,
)
    requires
        cells.wf(),
        cells.live(curr_cell_id.0 as int),
        cells_ok(*cells),
        old(cell_changes_group).in_bounds(),
        in_range(dt as int),
    ensures
        near_fold(*cells, cells.entry(curr_cell_id.0 as int), curr_cell_id.0, *old(cell_changes_group), cell_near_ids(*cells, curr_cell_id.0 as int), dt as int)
            == *final(cell_changes_group),
        final(world_updates).changes@ == old(world_updates).changes@,
        final(world_updates).additions@ == old(world_updates).additions@,
        final(cell_changes_group).in_bounds(),
{
    let i = curr_cell_id.0;
    let cell = entry_at(cells, i);
    let ghost e = cells.entry(i as int);
    let ghost g0 = *cell_changes_group;
    assert(entry_ok(e));
    let nearby_cell_ids = get_entity_ids_near_pos((cell.raw.current_grid_x, cell.raw.current_grid_y), cells);
    let n = nearby_cell_ids.len();
    let mut k: usize = 0;
    while k < n
        invariant
            *cell == e,
            e == cells.entry(i as int),
            entry_ok(e),
            cells.wf(),
            cells_ok(*cells),
            n == nearby_cell_ids@.len(),
            k <= n,
            in_range(dt as int),
            cell_changes_group.in_bounds(),
            is_near_list(*cells, e.raw.current_grid_x as int, e.raw.current_grid_y as int, nearby_cell_ids@),
            nearby_cell_ids@ == cell_near_ids(*cells, i as int),
            *cell_changes_group == near_fold(*cells, e, i, g0, nearby_cell_ids@.subrange(0, k as int), dt as int),
        decreases n - k,
    {
        let nearby_cell_id = nearby_cell_ids[k];
        proof {
            let ids = nearby_cell_ids@;
            assert(ids.subrange(0, k + 1).drop_last() =~= ids.subrange(0, k as int));
            assert(ids.subrange(0, k + 1).last() == nearby_cell_id);
            assert(ids.contains(nearby_cell_id));
        }
        if nearby_cell_id.0 != i {
            let other = entry_at(cells, nearby_cell_id.0);
            assert(entry_ok(*other));
            let d = cell.pos_change_to(other);
            let c = collision(d, dt);
            cell_changes_group.x_vel_change = fx_add(cell_changes_group.x_vel_change, c.0);
            cell_changes_group.y_vel_change = fx_add(cell_changes_group.y_vel_change, c.1);
        }
        k = k + 1;
    }
    proof {
        assert(nearby_cell_ids@.subrange(0, n as int) =~= nearby_cell_ids@);
    }
}

/// Changes computed for a living cell in slot `i`, given the neighbour list its
/// collision stage saw: its own first-stage and type-specific changes, the credits to
/// its connected cells, then its accumulated velocity, energy and material changes.
pub open spec fn living_cell_changes(cells: EntityContainer<Cell>, i: usize, dt: int, ids: Seq<EntityID>) -> Seq<ChangeUpdate> {
    let e = cells.entry(i as int);
    let g1 = single_group(CellChangesGroup { x_vel_change: 0, y_vel_change: 0, energy_change: 0, material_change: 0 }, e, dt);
    let g2 = type_group(g1, e, dt);
    let f = conn_fold(cells, e, g2, e.data.connected_cells@, dt);
    let g4 = near_fold(cells, e, i, f.0, ids, dt);
    single_changes(i, e, dt) + type_changes(i, e, dt) + f.1 + g4.as_changes(i)
}

/// What the tick computes for slot `i`: nothing for an empty slot; for a dead cell its
/// removal and its food; for a living cell the changes of every stage (against the
/// neighbour list its collision stage saw) and no addition.
pub open spec fn slot_updates_post(cells: EntityContainer<Cell>, i: int, dt: int, r: WorldUpdates) -> bool {
    let e = cells.entry(i);
    &&& all_in_bounds(r.changes@)
    &&& !cells.live(i) ==> r.changes@.len() == 0 && r.additions@.len() == 0
    &&& cells.live(i) && e.data.health <= 0 ==> {
        &&& r.changes@ == single_changes(i as usize, e, dt)
        &&& r.additions@ == seq![AdditionUpdate::Food(food_of(e))]
    }
    &&& cells.live(i) && e.data.health > 0 ==> {
        &&& r.additions@.len() == 0
        &&& r.changes@ == living_cell_changes(cells, i as usize, dt, cell_near_ids(cells, i))
    }
}

/// Everything one cell's tick produces, computed against the container as it stands:
/// a dead cell queues its removal and its food and nothing else; a living one queues
/// the changes of every stage and no addition.
pub fn compute_cell(curr_cell_id: EntityID, cells: &EntityContainer<Cell>, dt: i64) -> (r: WorldUpdates)
    requires
        cells.wf(),
        cells.live(curr_cell_id.0 as int),
        cells_ok(*cells),
        connections_valid(*cells),
        in_range(dt as int),
    ensures
        slot_updates_post(*cells, curr_cell_id.0 as int, dt as int, r),
{
    let mut world_updates = WorldUpdates::new();
    let mut cell_changes_group = CellChangesGroup::new();
    assert(entry_ok(cells.entry(curr_cell_id.0 as int)));
    assert(world_updates.additions@ =~= Seq::<AdditionUpdate>::empty());
    let update_result = update_single_cell(curr_cell_id, cells, &mut world_updates, &mut cell_changes_group, dt);
    proof {
        assert(seq![] + single_changes(curr_cell_id.0, cells.entry(curr_cell_id.0 as int), dt as int)
            =~= single_changes(curr_cell_id.0, cells.entry(curr_cell_id.0 as int), dt as int));
        assert(Seq::<AdditionUpdate>::empty().push(AdditionUpdate::Food(food_of(cells.entry(curr_cell_id.0 as int))))
            =~= seq![AdditionUpdate::Food(food_of(cells.entry(curr_cell_id.0 as int)))]);
    }
    if update_result == CellUpdateResult::Removed {
        return world_updates;
    }
    let ghost c1 = world_updates.changes@;
    update_cell_by_type(curr_cell_id, cells, &mut world_updates, &mut cell_changes_group, dt);
    let ghost c2 = world_updates.changes@;
    update_connected_cells(curr_cell_id, cells, &mut world_updates, &mut cell_changes_group, dt);
    let ghost c3 = world_updates.changes@;
    let ghost g3 = cell_changes_group;
    update_nearby_cells(curr_cell_id, cells, &mut world_updates, &mut cell_changes_group, dt);
    let ghost g4 = cell_changes_group;
    cell_changes_group.add_self_to_world_updates(&mut world_updates, curr_cell_id);
    proof {
        let i = curr_cell_id.0;
        let e = cells.entry(i as int);
        let ids = cell_near_ids(*cells, i as int);
        assert(world_updates.changes@ =~= living_cell_changes(*cells, i, dt as int, ids));
        assert forall|k: int| 0 <= k < world_updates.changes@.len() implies (#[trigger] world_updates.changes@[k]).in_bounds() by {
            if k >= c3.len() {
                let g = g4;
                assert(g.in_bounds());
            }
        }
    }
    world_updates
}

/// Whether an id resolves in `cells`.
pub open spec fn resolves(cells: EntityContainer<Cell>) -> spec_fn(EntityID) -> bool {
    |id: EntityID| cells.id_valid_spec(id)
}

/// Drops from the connections of the cell `curr_cell_id` every id that no longer
/// resolves, keeping the others in order. Nothing else changes.
pub fn remove_invalid_ids(curr_cell_id: EntityID, cells: &mut EntityContainer<Cell>)
    requires
        old(cells).wf(),
        old(cells).live(curr_cell_id.0 as int),
    ensures
        final(cells).wf(),
        final(cells).entities_by_pos == old(cells).entities_by_pos,
        final(cells).current_index == old(cells).current_index,
        final(cells).empty_slots == old(cells).empty_slots,
        final(cells).master_list@.len() == old(cells).master_list@.len(),
        forall|j: int| 0 <= j < old(cells).master_list@.len() && j != curr_cell_id.0 ==> #[trigger] final(cells).master_list@[j] == old(cells).master_list@[j],
        ({
            let i = curr_cell_id.0 as int;
            let e = old(cells).entry(i);
            let kept = final(cells).entry(i).data.connected_cells;
            &&& final(cells).master_list@[i] == (Some(Entry { raw: e.raw, data: Cell { connected_cells: kept, ..e.data } }), old(cells).generation(i))
            &&& kept@ == e.data.connected_cells@.filter(resolves(*old(cells)))
        }),
{
    let i = curr_cell_id.0;
    let ghost pre = *cells;
    let current = entry_at(cells, i);
    let ghost conns = current.data.connected_cells@;
    let mut kept: Vec<EntityID> = Vec::new();
    let n = current.data.connected_cells.len();
    let mut k: usize = 0;
    while k < n
        invariant
            *cells == pre,
            current.data.connected_cells@ == conns,
            n == conns.len(),
            k <= n,
            kept@ == conns.subrange(0, k as int).filter(resolves(pre)),
        decreases n - k,
    {
        let id = current.data.connected_cells[k];
        proof {
            assert(conns.subrange(0, k + 1).drop_last() =~= conns.subrange(0, k as int));
            assert(conns.subrange(0, k + 1).last() == id);
        }
        if cells.id_is_valid(id) {
            kept.push(id);
        }
        proof {
            let s1 = conns.subrange(0, k + 1);
            reveal(Seq::filter);
            assert(s1.filter(resolves(pre)) == if resolves(pre)(id) {
                conns.subrange(0, k as int).filter(resolves(pre)).push(id)
            } else {
                conns.subrange(0, k as int).filter(resolves(pre))
            });
        }
        k = k + 1;
    }
    proof {
        assert(conns.subrange(0, n as int) =~= conns);
        if n == 0 {
            reveal(Seq::filter);
        }
    }
    match &mut cells.master_list[i].0 {
        Some(e) => {
            e.data.connected_cells = kept;
        },
        None => {},
    }
    proof {
        lemma_same_layout_wf(pre, *cells);
    }
}

/// Slot a change is addressed to.
pub open spec fn change_target(ch: ChangeUpdate) -> usize {
    match ch {
        ChangeUpdate::ChangeCellHealth(i, _) => i,
        ChangeUpdate::ChangeCellEnergy(i, _) => i,
        ChangeUpdate::ChangeCellMaterial(i, _) => i,
        ChangeUpdate::SetCellPos(i, _, _) => i,
        ChangeUpdate::ChangeCellVel(i, _, _) => i,
        ChangeUpdate::SetCellIsActive(i, _) => i,
        ChangeUpdate::SetCellShouldBeRemoved(i, _) => i,
        ChangeUpdate::ChangeCellFatExtraEnergy(i, _) => i,
        ChangeUpdate::ChangeCellFatExtraMaterial(i, _) => i,
    }
}

/// A stored cell after a change addressed to it: accumulations add (saturating), sets
/// replace; a buffer change to a cell without a buffer does nothing.
pub open spec fn changed_entry(e: Entry<Cell>, ch: ChangeUpdate) -> Entry<Cell> {
    let c = e.data;
    match ch {
        ChangeUpdate::ChangeCellHealth(_, v) => Entry { data: Cell { health: add_spec(c.health as int, v as int) as i64, ..c }, ..e },
        ChangeUpdate::ChangeCellEnergy(_, v) => Entry { data: Cell { energy: add_spec(c.energy as int, v as int) as i64, ..c }, ..e },
        ChangeUpdate::ChangeCellMaterial(_, v) => Entry { data: Cell { material: add_spec(c.material as int, v as int) as i64, ..c }, ..e },
        ChangeUpdate::SetCellPos(_, x, y) => Entry { raw: RawEntity { x, y, ..e.raw }, ..e },
        ChangeUpdate::ChangeCellVel(_, x, y) => Entry {
            data: Cell { x_vel: add_spec(c.x_vel as int, x as int) as i64, y_vel: add_spec(c.y_vel as int, y as int) as i64, ..c },
            ..e
        },
        ChangeUpdate::SetCellIsActive(_, b) => Entry { data: Cell { is_active: b, ..c }, ..e },
        ChangeUpdate::SetCellShouldBeRemoved(_, b) => Entry { raw: RawEntity { should_be_removed: b, ..e.raw }, ..e },
        ChangeUpdate::ChangeCellFatExtraEnergy(_, v) => match c.raw_cell {
            RawCell::Fat(f) => Entry {
                data: Cell { raw_cell: RawCell::Fat(crate::cell_data::FatCellData { extra_energy: add_spec(f.extra_energy as int, v as int) as i64, ..f }), ..c },
                ..e
            },
            RawCell::Photosynthesiser => e,
        },
        ChangeUpdate::ChangeCellFatExtraMaterial(_, v) => match c.raw_cell {
            RawCell::Fat(f) => Entry {
                data: Cell { raw_cell: RawCell::Fat(crate::cell_data::FatCellData { extra_material: add_spec(f.extra_material as int, v as int) as i64, ..f }), ..c },
                ..e
            },
            RawCell::Photosynthesiser => e,
        },
    }
}

/// What applying `ch` does to the slot table: the live cell it is addressed to becomes
/// `changed_entry`; every other slot, and a change addressed to an empty slot, is left
/// alone.
pub open spec fn apply_post(old: EntityContainer<Cell>, ch: ChangeUpdate, new: EntityContainer<Cell>) -> bool {
    &&& new.entities_by_pos == old.entities_by_pos
    &&& new.current_index == old.current_index
    &&& new.empty_slots == old.empty_slots
    &&& new.master_list@.len() == old.master_list@.len()
    &&& forall|j: int| 0 <= j < old.master_list@.len() ==> #[trigger] new.master_list@[j] == if j == change_target(ch) && old.live(j) {
        (Some(changed_entry(old.entry(j), ch)), old.generation(j))
    } else {
        old.master_list@[j]
    }
}

pub fn apply_change_update(update: ChangeUpdate, cells: &mut EntityContainer<Cell>)
    requires
        old(cells).wf(),
        cells_ok(*old(cells)),
        update.in_bounds(),
    ensures
        final(cells).wf(),
        cells_ok(*final(cells)),
        apply_post(*old(cells), update, *final(cells)),
{
    let ghost pre = *cells;
    let idx: usize = match update {
        ChangeUpdate::ChangeCellHealth(i, _) => i,
        ChangeUpdate::ChangeCellEnergy(i, _) => i,
        ChangeUpdate::ChangeCellMaterial(i, _) => i,
        ChangeUpdate::SetCellPos(i, _, _) => i,
        ChangeUpdate::ChangeCellVel(i, _, _) => i,
        ChangeUpdate::SetCellIsActive(i, _) => i,
        ChangeUpdate::SetCellShouldBeRemoved(i, _) => i,
        ChangeUpdate::ChangeCellFatExtraEnergy(i, _) => i,
        ChangeUpdate::ChangeCellFatExtraMaterial(i, _) => i,
    };
    if idx >= cells.master_list.len() {
        return;
    }
    proof {
        if pre.live(idx as int) {
            assert(entry_ok(pre.entry(idx as int)));
        }
    }
    match &mut cells.master_list[idx].0 {
        Some(e) => {
            match update {
                ChangeUpdate::ChangeCellHealth(_, v) => {
                    e.data.health = fx_add(e.data.health, v);
                },
                ChangeUpdate::ChangeCellEnergy(_, v) => {
                    e.data.energy = fx_add(e.data.energy, v);
                },
                ChangeUpdate::ChangeCellMaterial(_, v) => {
                    e.data.material = fx_add(e.data.material, v);
                },
                ChangeUpdate::SetCellPos(_, x, y) => {
                    e.raw.x = x;
                    e.raw.y = y;
                },
                ChangeUpdate::ChangeCellVel(_, x, y) => {
                    e.data.x_vel = fx_add(e.data.x_vel, x);
                    e.data.y_vel = fx_add(e.data.y_vel, y);
                },
                ChangeUpdate::SetCellIsActive(_, b) => {
                    e.data.is_active = b;
                },
                ChangeUpdate::SetCellShouldBeRemoved(_, b) => {
                    e.raw.should_be_removed = b;
                },
                ChangeUpdate::ChangeCellFatExtraEnergy(_, v) => {
                    match &mut e.data.raw_cell {
                        RawCell::Fat(f) => {
                            f.extra_energy = fx_add(f.extra_energy, v);
                        },
                        RawCell::Photosynthesiser => {},
                    }
                },
                ChangeUpdate::ChangeCellFatExtraMaterial(_, v) => {
                    match &mut e.data.raw_cell {
                        RawCell::Fat(f) => {
                            f.extra_material = fx_add(f.extra_material, v);
                        },
                        RawCell::Photosynthesiser => {},
                    }
                },
            }
        },
        None => {},
    }
    proof {
        lemma_same_layout_wf(pre, *cells);
        assert forall|j: int| #[trigger] cells.live(j) implies entry_ok(cells.entry(j)) by {
            assert(pre.live(j));
        }
    }
}

/// Whether the change is one a cell only ever makes to itself: its position, its
/// activity or its removal.
pub open spec fn is_own(ch: ChangeUpdate) -> bool {
    ch is SetCellPos || ch is SetCellIsActive || ch is SetCellShouldBeRemoved
}

/// No change of the sequence is an own change.
pub open spec fn no_own(s: Seq<ChangeUpdate>) -> bool {
    forall|k: int| 0 <= k < s.len() ==> !is_own(#[trigger] s[k])
}

/// Whether the cell in slot `i` is alive but has no health left.
pub open spec fn is_dead(cells: EntityContainer<Cell>, i: int) -> bool {
    cells.live(i) && cells.entry(i).data.health <= 0
}

/// The position the cell in slot `i` moves to this tick.
pub open spec fn pos_change(cells: EntityContainer<Cell>, i: int, dt: int) -> ChangeUpdate {
    let e = cells.entry(i);
    ChangeUpdate::SetCellPos(
        i as usize,
        integrate_spec(e.raw.x as int, e.data.x_vel as int, dt, GRID_WIDTH as int) as i64,
        integrate_spec(e.raw.y as int, e.data.y_vel as int, dt, GRID_HEIGHT as int) as i64,
    )
}

/// The activity the cell in slot `i` takes when it no longer matches its energy.
pub open spec fn act_change(cells: EntityContainer<Cell>, i: int) -> ChangeUpdate {
    ChangeUpdate::SetCellIsActive(i as usize, cells.entry(i).data.energy > 0)
}

pub open spec fn act_mismatch(cells: EntityContainer<Cell>, i: int) -> bool {
    cells.entry(i).data.is_active != (cells.entry(i).data.energy > 0)
}

/// An own change is one that its target cell really makes this tick.
pub open spec fn own_ok(cells: EntityContainer<Cell>, dt: int, ch: ChangeUpdate) -> bool {
    is_own(ch) ==> {
        let t = change_target(ch) as int;
        &&& cells.live(t)
        &&& (ch == pos_change(cells, t, dt) || (ch == act_change(cells, t) && act_mismatch(cells, t))
            || (ch == ChangeUpdate::SetCellShouldBeRemoved(t as usize, true) && is_dead(cells, t)))
    }
}

proof fn lemma_no_own_concat(a: Seq<ChangeUpdate>, b: Seq<ChangeUpdate>)
    requires
        no_own(a),
        no_own(b),
    ensures
        no_own(a + b),
{
    assert forall|k: int| 0 <= k < (a + b).len() implies !is_own(#[trigger] (a + b)[k]) by {
        if k < a.len() {
            assert((a + b)[k] == a[k]);
        } else {
            assert((a + b)[k] == b[k - a.len()]);
        }
    }
}

proof fn lemma_conn_fold_no_own(cells: EntityContainer<Cell>, e: Entry<Cell>, g: CellChangesGroup, conns: Seq<EntityID>, dt: int)
    ensures
        no_own(conn_fold(cells, e, g, conns, dt).1),
    decreases conns.len(),
{
    if conns.len() > 0 {
        lemma_conn_fold_no_own(cells, e, g, conns.drop_last(), dt);
        let o = cells.entry(conns.last().0 as int);
        let step = conn_changes_step(e, o, conns.last().0, dt);
        assert(no_own(step));
        lemma_no_own_concat(conn_fold(cells, e, g, conns.drop_last(), dt).1, step);
    }
}

proof fn lemma_single_changes_own(cells: EntityContainer<Cell>, i: usize, dt: int)
    requires
        cells.live(i as int),
    ensures
        ({
            let s = single_changes(i, cells.entry(i as int), dt);
            &&& forall|k: int| 0 <= k < s.len() ==> own_ok(cells, dt, #[trigger] s[k])
            &&& s.contains(pos_change(cells, i as int, dt))
            &&& act_mismatch(cells, i as int) ==> s.contains(act_change(cells, i as int))
            &&& is_dead(cells, i as int) ==> s.contains(ChangeUpdate::SetCellShouldBeRemoved(i, true))
        }),
{
    let e = cells.entry(i as int);
    let s = single_changes(i, e, dt);
    let p = pos_change(cells, i as int, dt);
    let a = act_change(cells, i as int);
    let pos = seq![p];
    let act = if act_mismatch(cells, i as int) { pos.push(a) } else { pos };
    assert(s[0] == p);
    assert(act[0] == p);
    if act_mismatch(cells, i as int) {
        assert(act[1] == a);
        assert(s[1] == a);
    }
    if is_dead(cells, i as int) {
        assert(s[s.len() - 1] == ChangeUpdate::SetCellShouldBeRemoved(i, true));
    }
    assert forall|k: int| 0 <= k < s.len() implies own_ok(cells, dt, #[trigger] s[k]) by {
        if k < act.len() {
            assert(s[k] == act[k]);
        }
    }
}

proof fn lemma_living_rest_no_own(cells: EntityContainer<Cell>, i: usize, dt: int, ids: Seq<EntityID>)
    ensures
        ({
            let e = cells.entry(i as int);
            let g1 = single_group(CellChangesGroup { x_vel_change: 0, y_vel_change: 0, energy_change: 0, material_change: 0 }, e, dt);
            let g2 = type_group(g1, e, dt);
            let f = conn_fold(cells, e, g2, e.data.connected_cells@, dt);
            let g4 = near_fold(cells, e, i, f.0, ids, dt);
            let rest = type_changes(i, e, dt) + f.1 + g4.as_changes(i);
            &&& no_own(rest)
            &&& living_cell_changes(cells, i, dt, ids) =~= single_changes(i, e, dt) + rest
        }),
{
    let e = cells.entry(i as int);
    let g1 = single_group(CellChangesGroup { x_vel_change: 0, y_vel_change: 0, energy_change: 0, material_change: 0 }, e, dt);
    let g2 = type_group(g1, e, dt);
    let f = conn_fold(cells, e, g2, e.data.connected_cells@, dt);
    let g4 = near_fold(cells, e, i, f.0, ids, dt);
    let b = type_changes(i, e, dt);
    assert(no_own(b));
    lemma_conn_fold_no_own(cells, e, g2, e.data.connected_cells@, dt);
    assert(no_own(g4.as_changes(i)));
    lemma_no_own_concat(b, f.1);
    lemma_no_own_concat(b + f.1, g4.as_changes(i));
}

proof fn lemma_concat_contains(a: Seq<ChangeUpdate>, b: Seq<ChangeUpdate>, x: ChangeUpdate)
    requires
        a.contains(x),
    ensures
        (a + b).contains(x),
{
    let q = choose|q: int| 0 <= q < a.len() && a[q] == x;
    assert((a + b)[q] == x);
}

/// The own changes a slot's computation queues are ones its cell really makes, and
/// it queues all of them: its position, its activity when that changes, its removal
/// when it is dead.
proof fn lemma_slot_own(cells: EntityContainer<Cell>, i: usize, dt: int, r: WorldUpdates)
    requires
        slot_updates_post(cells, i as int, dt, r),
    ensures
        forall|k: int| 0 <= k < r.changes@.len() ==> own_ok(cells, dt, #[trigger] r.changes@[k]),
        cells.live(i as int) ==> r.changes@.contains(pos_change(cells, i as int, dt)),
        cells.live(i as int) && act_mismatch(cells, i as int) ==> r.changes@.contains(act_change(cells, i as int)),
        is_dead(cells, i as int) ==> r.changes@.contains(ChangeUpdate::SetCellShouldBeRemoved(i, true)),
{
    let e = cells.entry(i as int);
    if cells.live(i as int) {
        lemma_single_changes_own(cells, i, dt);
        let s = single_changes(i, e, dt);
        if e.data.health > 0 {
            let ids = cell_near_ids(cells, i as int);
            lemma_living_rest_no_own(cells, i, dt, ids);
            let g1 = single_group(CellChangesGroup { x_vel_change: 0, y_vel_change: 0, energy_change: 0, material_change: 0 }, e, dt);
            let g2 = type_group(g1, e, dt);
            let f = conn_fold(cells, e, g2, e.data.connected_cells@, dt);
            let g4 = near_fold(cells, e, i, f.0, ids, dt);
            let rest = type_changes(i, e, dt) + f.1 + g4.as_changes(i);
            assert(r.changes@ == s + rest);
            assert forall|k: int| 0 <= k < r.changes@.len() implies own_ok(cells, dt, #[trigger] r.changes@[k]) by {
                if k < s.len() {
                    assert(r.changes@[k] == s[k]);
                } else {
                    assert(r.changes@[k] == rest[k - s.len()]);
                }
            }
            lemma_concat_contains(s, rest, pos_change(cells, i as int, dt));
            if act_mismatch(cells, i as int) {
                lemma_concat_contains(s, rest, act_change(cells, i as int));
            }
        }
    }
}

proof fn lemma_push_contains(s: Seq<ChangeUpdate>, a: ChangeUpdate, x: ChangeUpdate)
    ensures
        s.push(a).contains(x) <==> (s.contains(x) || a == x),
{
    if s.contains(x) {
        let q = choose|q: int| 0 <= q < s.len() && s[q] == x;
        assert(s.push(a)[q] == x);
    }
    if a == x {
        assert(s.push(a)[s.len() as int] == x);
    }
    if s.push(a).contains(x) && a != x {
        let q = choose|q: int| 0 <= q < s.push(a).len() && s.push(a)[q] == x;
        assert(q < s.len());
        assert(s[q] == x);
    }
}

/// Number of dead cells among the first `n` slots.
pub open spec fn dead_count(cells: EntityContainer<Cell>, n: int) -> nat
    decreases n,
{
    if n <= 0 {
        0
    } else {
        dead_count(cells, n - 1) + if is_dead(cells, n - 1) { 1nat } else { 0nat }
    }
}

/// The food of the dead cells among the first `n` slots, in slot order.
pub open spec fn dead_foods(cells: EntityContainer<Cell>, n: int) -> Seq<AdditionUpdate>
    decreases n,
{
    if n <= 0 {
        seq![]
    } else {
        dead_foods(cells, n - 1) + if is_dead(cells, n - 1) {
            seq![AdditionUpdate::Food(food_of(cells.entry(n - 1)))]
        } else {
            seq![]
        }
    }
}

pub open spec fn addition_food(a: AdditionUpdate) -> Entry<Food> {
    match a {
        AdditionUpdate::Food(f) => f,
    }
}

/// Some live entity of `food` is `f`, filed under its position.
pub open spec fn stores_food(food: EntityContainer<Food>, f: Entry<Food>) -> bool {
    exists|id: EntityID| #[trigger] food.id_valid_spec(id) && food.entry(id.0 as int) == (Entry { raw: f.raw.synced(), data: f.data })
}

proof fn lemma_dead_foods(cells: EntityContainer<Cell>, n: int)
    ensures
        dead_foods(cells, n).len() == dead_count(cells, n),
        forall|i: int| 0 <= i < n && #[trigger] is_dead(cells, i) ==> dead_foods(cells, n).contains(AdditionUpdate::Food(food_of(cells.entry(i)))),
    decreases n,
{
    if n > 0 {
        lemma_dead_foods(cells, n - 1);
        let prev = dead_foods(cells, n - 1);
        let tail = if is_dead(cells, n - 1) {
            seq![AdditionUpdate::Food(food_of(cells.entry(n - 1)))]
        } else {
            seq![]
        };
        assert(dead_foods(cells, n) == prev + tail);
        assert forall|i: int| 0 <= i < n && #[trigger] is_dead(cells, i) implies dead_foods(cells, n).contains(AdditionUpdate::Food(food_of(cells.entry(i)))) by {
            let x = AdditionUpdate::Food(food_of(cells.entry(i)));
            if i == n - 1 {
                assert((prev + tail)[prev.len() as int] == x);
            } else {
                let q = choose|q: int| 0 <= q < prev.len() && prev[q] == x;
                assert((prev + tail)[q] == x);
            }
        }
    }
}

proof fn lemma_dead_count_same(a: EntityContainer<Cell>, b: EntityContainer<Cell>, n: int)
    requires
        forall|i: int| 0 <= i < n ==> (#[trigger] is_dead(a, i) <==> is_dead(b, i)),
    ensures
        dead_count(a, n) == dead_count(b, n),
    decreases n,
{
    if n > 0 {
        lemma_dead_count_same(a, b, n - 1);
        assert(is_dead(a, n - 1) <==> is_dead(b, n - 1));
    }
}

/// The tick's computation for slot `i`: that of its cell if the slot is live, nothing
/// otherwise.
pub fn compute_slot(i: usize, cells: &EntityContainer<Cell>, dt: i64) -> (r: WorldUpdates)
    requires
        cells.wf(),
        cells_ok(*cells),
        connections_valid(*cells),
        in_range(dt as int),
    ensures
        slot_updates_post(*cells, i as int, dt as int, r),
{
    if i < cells.master_list.len() && cells.master_list[i].0.is_some() {
        compute_cell((i, cells.master_list[i].1), cells, dt)
    } else {
        WorldUpdates::new()
    }
}

/// Relies on rayon: `(0..n).into_par_iter().map(f).collect_into_vec(v)` runs `f` once
/// for each index, possibly on several threads, and leaves in `v` the `n` results in
/// index order.
#[verifier::external_body]
fn compute_all(cells: &EntityContainer<Cell>, dt: i64) -> (r: Vec<WorldUpdates>)
    requires
        cells.wf(),
        cells_ok(*cells),
        connections_valid(*cells),
        in_range(dt as int),
    ensures
        r@.len() == cells.slot_count(),
        forall|i: int| 0 <= i < r@.len() ==> slot_updates_post(*cells, i, dt as int, #[trigger] r@[i]),
{
    let mut out: Vec<WorldUpdates> = Vec::new();
    (0..cells.master_list.len()).into_par_iter().map(|i| compute_slot(i, cells, dt)).collect_into_vec(&mut out);
    out
}

/// The simulated world: the cells and the food, each in its own container.
pub struct World {
    pub cells: EntityContainer<Cell>,
    pub food: EntityContainer<Food>,
}

impl World {
    pub open spec fn wf(self) -> bool {
        &&& self.cells.wf()
        &&& self.food.wf()
        &&& cells_ok(self.cells)
    }

    pub fn new() -> (r: World)
        ensures
            r.wf(),
            r.cells.slot_count() == 0,
            r.food.slot_count() == 0,
    {
        World { cells: EntityContainer::new(), food: EntityContainer::new() }
    }

    /// Capacity-checked insertion of a cell.
    pub fn add_cell(&mut self, cell: Entry<Cell>) -> (r: Option<EntityID>)
        requires
            old(self).wf(),
            entry_ok(cell),
        ensures
            final(self).wf(),
            EntityContainer::add_post(old(self).cells, cell, r, final(self).cells),
            final(self).food == old(self).food,
    {
        let ghost e = cell;
        let r = self.cells.add_entity(cell);
        proof {
            assert forall|i: int| #[trigger] self.cells.live(i) implies entry_ok(self.cells.entry(i)) by {
                if r is None || i != r.unwrap().0 {
                    assert(old(self).cells.live(i));
                    assert(self.cells.master_list@[i] == old(self).cells.master_list@[i]);
                }
            }
        }
        r
    }

    /// Capacity-checked insertion of food.
    pub fn add_food(&mut self, food: Entry<Food>) -> (r: Option<EntityID>)
        requires
            old(self).wf(),
        ensures
            final(self).wf(),
            EntityContainer::add_post(old(self).food, food, r, final(self).food),
            final(self).cells == old(self).cells,
    {
        self.food.add_entity(food)
    }

    /// Ids of the cells in the 3x3 block of buckets around `grid_pos`.
    pub fn neighbors_near(&self, grid_pos: (usize, usize)) -> (r: Vec<EntityID>)
        requires
            self.wf(),
        ensures
            is_near_list(self.cells, grid_pos.0 as int, grid_pos.1 as int, r@),
            r@ == near_ids(self.cells, grid_pos.0 as int, grid_pos.1 as int),
    {
        get_entity_ids_near_pos(grid_pos, &self.cells)
    }

    /// Advances the simulation by `dt`.
    pub fn tick(&mut self, dt: i64)
        requires
            old(self).wf(),
            0 <= dt <= LIMIT,
        ensures
            tick_post(*old(self), *final(self), dt as int),
    {
        update_cells(self, dt);
    }
}

/// The changes the tick computes for slot `i`: none for an empty slot, the first stage's
/// for a dead cell, every stage's for a living one.
pub open spec fn slot_changes(cells: EntityContainer<Cell>, i: int, dt: int) -> Seq<ChangeUpdate> {
    if !cells.live(i) {
        seq![]
    } else if cells.entry(i).data.health <= 0 {
        single_changes(i as usize, cells.entry(i), dt)
    } else {
        living_cell_changes(cells, i as usize, dt, cell_near_ids(cells, i))
    }
}

/// The changes the tick computes for the first `n` slots, slot by slot.
pub open spec fn tick_changes(cells: EntityContainer<Cell>, n: int, dt: int) -> Seq<ChangeUpdate>
    decreases n,
{
    if n <= 0 {
        seq![]
    } else {
        tick_changes(cells, n - 1, dt) + slot_changes(cells, n - 1, dt)
    }
}

/// A slot table after applying `ch`: the live cell it is addressed to becomes
/// `changed_entry`; anything else is left alone.
pub open spec fn apply_change_slots(s: Seq<(Option<Entry<Cell>>, u32)>, ch: ChangeUpdate) -> Seq<(Option<Entry<Cell>>, u32)> {
    let t = change_target(ch) as int;
    if 0 <= t < s.len() && s[t].0 is Some {
        s.update(t, (Some(changed_entry(s[t].0.unwrap(), ch)), s[t].1))
    } else {
        s
    }
}

/// A slot table after applying `chs` in order.
pub open spec fn apply_all(s: Seq<(Option<Entry<Cell>>, u32)>, chs: Seq<ChangeUpdate>) -> Seq<(Option<Entry<Cell>>, u32)>
    decreases chs.len(),
{
    if chs.len() == 0 {
        s
    } else {
        apply_change_slots(apply_all(s, chs.drop_last()), chs.last())
    }
}

/// `p` is `old` with every connection list reduced, in order, to the ids that resolve;
/// nothing else differs.
pub open spec fn pruned_from(old: EntityContainer<Cell>, p: EntityContainer<Cell>) -> bool {
    &&& p.entities_by_pos == old.entities_by_pos
    &&& p.current_index == old.current_index
    &&& p.empty_slots == old.empty_slots
    &&& p.master_list@.len() == old.master_list@.len()
    &&& forall|j: int| 0 <= j < old.master_list@.len() ==> #[trigger] p.master_list@[j] == if old.live(j) {
        (
            Some(Entry { raw: old.raw_of(j), data: Cell { connected_cells: p.entry(j).data.connected_cells, ..old.entry(j).data } }),
            old.generation(j),
        )
    } else {
        old.master_list@[j]
    }
    &&& forall|j: int| #[trigger] old.live(j) ==> p.entry(j).data.connected_cells@ == old.entry(j).data.connected_cells@.filter(resolves(old))
}

/// What a tick guarantees: every cell slot ends as the pruned snapshot with all the
/// changes computed from that snapshot applied in slot order, then synchronised; the
/// world stays well formed and fully synchronised; the cell
/// slot table keeps its size and its generations; the cells alive afterwards are exactly
/// those that were alive, had health left and were not flagged for removal; each of them
/// has moved to its integrated position and is active exactly when its energy at the
/// start of the tick was positive; and, while the food container has room, each cell
/// that died left exactly one food entity with its position, energy and material.
pub open spec fn tick_post(old: World, new: World, dt: int) -> bool {
    &&& exists|p: EntityContainer<Cell>| #[trigger] pruned_from(old.cells, p)
        && forall|i: int| 0 <= i < old.cells.slot_count() ==> #[trigger] new.cells.master_list@[i]
            == EntityContainer::<Cell>::synced_slot(apply_all(p.master_list@, tick_changes(p, p.slot_count(), dt))[i])
    &&& new.wf()
    &&& new.cells.all_synced()
    &&& new.food.all_synced()
    &&& new.cells.slot_count() == old.cells.slot_count()
    &&& forall|i: int| 0 <= i < old.cells.slot_count() ==> #[trigger] new.cells.generation(i) == old.cells.generation(i)
    &&& forall|i: int| 0 <= i < old.cells.slot_count() ==> (#[trigger] new.cells.live(i) <==> {
        &&& old.cells.live(i)
        &&& old.cells.entry(i).data.health > 0
        &&& !old.cells.raw_of(i).should_be_removed
    })
    &&& forall|i: int| 0 <= i < old.cells.slot_count() && #[trigger] new.cells.live(i) ==> {
        let e = old.cells.entry(i);
        &&& new.cells.raw_of(i).x == integrate_spec(e.raw.x as int, e.data.x_vel as int, dt, GRID_WIDTH as int)
        &&& new.cells.raw_of(i).y == integrate_spec(e.raw.y as int, e.data.y_vel as int, dt, GRID_HEIGHT as int)
        &&& new.cells.entry(i).data.is_active == (e.data.energy > 0)
    }
    &&& exists|mid: EntityContainer<Food>| #[trigger] EntityContainer::sync_post(old.food, mid)
        && (mid.live_count() + dead_count(old.cells, old.cells.slot_count()) <= MAX_ENTITIES_COUNT ==> {
            &&& new.food.live_count() == mid.live_count() + dead_count(old.cells, old.cells.slot_count())
            &&& forall|i: int| 0 <= i < old.cells.slot_count() && #[trigger] is_dead(old.cells, i)
                ==> stores_food(new.food, food_of(old.cells.entry(i)))
        })
}

/// Ids of living cells survive a tick: a captured id of a cell that has health left
/// and is not flagged for removal still resolves afterwards, to a cell at its
/// integrated position.
pub proof fn lemma_tick_keeps_living_ids(old: World, new: World, dt: int, id: EntityID)
    requires
        tick_post(old, new, dt),
        old.cells.id_valid_spec(id),
        old.cells.entry(id.0 as int).data.health > 0,
        !old.cells.raw_of(id.0 as int).should_be_removed,
    ensures
        new.cells.id_valid_spec(id),
        new.cells.raw_of(id.0 as int).x == integrate_spec(
            old.cells.raw_of(id.0 as int).x as int,
            old.cells.entry(id.0 as int).data.x_vel as int,
            dt,
            GRID_WIDTH as int,
        ),
{
    let i = id.0 as int;
    assert(new.cells.live(i));
    assert(new.cells.generation(i) == old.cells.generation(i));
}

/// A cell with no health left is gone after one tick, its id resolving to nothing, and
/// while the food container has room the food it leaves holds its position, energy and
/// material.
pub proof fn lemma_tick_turns_dead_cell_into_food(old: World, new: World, dt: int, id: EntityID)
    requires
        tick_post(old, new, dt),
        old.wf(),
        old.cells.id_valid_spec(id),
        old.cells.entry(id.0 as int).data.health <= 0,
    ensures
        new.cells.lookup(id) is None,
        old.food.slot_count() + dead_count(old.cells, old.cells.slot_count()) <= MAX_ENTITIES_COUNT
            ==> stores_food(new.food, food_of(old.cells.entry(id.0 as int))),
{
    let i = id.0 as int;
    assert(!new.cells.live(i));
    let mid = choose|mid: EntityContainer<Food>| #[trigger] EntityContainer::sync_post(old.food, mid)
        && (mid.live_count() + dead_count(old.cells, old.cells.slot_count()) <= MAX_ENTITIES_COUNT ==> {
            &&& new.food.live_count() == mid.live_count() + dead_count(old.cells, old.cells.slot_count())
            &&& forall|j: int| 0 <= j < old.cells.slot_count() && #[trigger] is_dead(old.cells, j)
                ==> stores_food(new.food, food_of(old.cells.entry(j)))
        });
    crate::entity_container::lemma_live_count_bound(mid);
    assert(is_dead(old.cells, i));
}

/// Of a live cell, the position, activity and removal flag that the changes `prefix`
/// have given it, starting from its state in `pruned`.
pub open spec fn followed(pruned: EntityContainer<Cell>, cells: EntityContainer<Cell>, prefix: Seq<ChangeUpdate>, j: int, dt: int) -> bool {
    let e = pruned.entry(j);
    &&& cells.raw_of(j).should_be_removed == (e.raw.should_be_removed
        || prefix.contains(ChangeUpdate::SetCellShouldBeRemoved(j as usize, true)))
    &&& cells.raw_of(j).x == if prefix.contains(pos_change(pruned, j, dt)) {
        integrate_spec(e.raw.x as int, e.data.x_vel as int, dt, GRID_WIDTH as int) as i64
    } else {
        e.raw.x
    }
    &&& cells.raw_of(j).y == if prefix.contains(pos_change(pruned, j, dt)) {
        integrate_spec(e.raw.y as int, e.data.y_vel as int, dt, GRID_HEIGHT as int) as i64
    } else {
        e.raw.y
    }
    &&& cells.entry(j).data.is_active == if prefix.contains(act_change(pruned, j)) {
        e.data.energy > 0
    } else {
        e.data.is_active
    }
}

proof fn lemma_apply_followed(
    pruned: EntityContainer<Cell>,
    pre: EntityContainer<Cell>,
    post: EntityContainer<Cell>,
    ch: ChangeUpdate,
    prefix: Seq<ChangeUpdate>,
    j: int,
    dt: int,
)
    requires
        pre.wf(),
        pre.live(j),
        pruned.live(j),
        followed(pruned, pre, prefix, j, dt),
        apply_post(pre, ch, post),
        own_ok(pruned, dt, ch),
    ensures
        post.live(j),
        followed(pruned, post, prefix.push(ch), j, dt),
{
    assert(0 <= j < crate::entity_container::MAX_SLOTS);
    let rm = ChangeUpdate::SetCellShouldBeRemoved(j as usize, true);
    let pc = pos_change(pruned, j, dt);
    let ac = act_change(pruned, j);
    assert(change_target(rm) == j && change_target(pc) == j && change_target(ac) == j);
    assert(post.master_list@[j] == post.master_list@[j]);
    lemma_push_contains(prefix, ch, rm);
    lemma_push_contains(prefix, ch, pc);
    lemma_push_contains(prefix, ch, ac);
    if j == change_target(ch) {
        assert(post.entry(j) == changed_entry(pre.entry(j), ch));
        if is_own(ch) {
            assert(ch == pc || ch == ac || ch == rm);
        } else {
            assert(ch != pc && ch != ac && ch != rm);
        }
    } else {
        assert(post.entry(j) == pre.entry(j));
        assert(ch != pc && ch != ac && ch != rm);
    }
}

/// Pruning phase of a tick: every connection list keeps, in order, exactly the ids
/// that resolve; nothing else changes.
pub fn remove_all_invalid_ids(cells: &mut EntityContainer<Cell>)
    requires
        old(cells).wf(),
        cells_ok(*old(cells)),
    ensures
        final(cells).wf(),
        cells_ok(*final(cells)),
        connections_valid(*final(cells)),
        pruned_from(*old(cells), *final(cells)),
        same_layout(*old(cells), *final(cells)),
        keeps_slots(*old(cells), *final(cells)),
{
    let ghost start = *cells;
    let len = cells.master_list.len();
    let mut i: usize = 0;
    while i < len
        invariant
            cells.wf(),
            cells_ok(*cells),
            len == start.master_list@.len(),
            start == *old(cells),
            i <= len,
            same_layout(start, *cells),
            cells.entities_by_pos == start.entities_by_pos,
            forall|j: int| 0 <= j < len ==> #[trigger] cells.master_list@[j] == if j < i && start.live(j) {
                (
                    Some(Entry { raw: start.raw_of(j), data: Cell { connected_cells: cells.entry(j).data.connected_cells, ..start.entry(j).data } }),
                    start.generation(j),
                )
            } else {
                start.master_list@[j]
            },
            forall|j: int| 0 <= j < i && #[trigger] start.live(j)
                ==> cells.entry(j).data.connected_cells@ == start.entry(j).data.connected_cells@.filter(resolves(start)),
            forall|j: int, k: int|
                0 <= j < i && cells.live(j) && 0 <= k < cells.entry(j).data.connected_cells@.len()
                    ==> cells.id_valid_spec(#[trigger] cells.entry(j).data.connected_cells@[k]),
        decreases len - i,
    {
        if cells.master_list[i].0.is_some() {
            let gen = cells.master_list[i].1;
            let ghost pre = *cells;
            remove_invalid_ids((i, gen), cells);
            proof {
                assert(resolves(pre) =~= resolves(start)) by {
                    assert forall|x: EntityID| #[trigger] resolves(pre)(x) == resolves(start)(x) by {
                        assert(pre.master_list@[x.0 as int] == pre.master_list@[x.0 as int]);
                    }
                }
                assert(pre.master_list@[i as int] == start.master_list@[i as int]);
                assert forall|j: int| 0 <= j < len implies #[trigger] cells.master_list@[j] == if j < i + 1 && start.live(j) {
                    (
                        Some(Entry { raw: start.raw_of(j), data: Cell { connected_cells: cells.entry(j).data.connected_cells, ..start.entry(j).data } }),
                        start.generation(j),
                    )
                } else {
                    start.master_list@[j]
                } by {
                    assert(pre.master_list@[j] == pre.master_list@[j]);
                }
                assert forall|j: int| 0 <= j < i + 1 && #[trigger] start.live(j)
                    implies cells.entry(j).data.connected_cells@ == start.entry(j).data.connected_cells@.filter(resolves(start)) by {
                    assert(pre.master_list@[j] == pre.master_list@[j]);
                    assert(cells.master_list@[j] == cells.master_list@[j]);
                }
                let kept = cells.entry(i as int).data.connected_cells@;
                assert forall|k: int| 0 <= k < kept.len() implies cells.id_valid_spec(#[trigger] kept[k]) by {
                    pre.entry(i as int).data.connected_cells@.lemma_filter_pred(resolves(pre), k);
                    assert(cells.master_list@[kept[k].0 as int] == cells.master_list@[kept[k].0 as int]);
                }
                assert forall|j: int| #[trigger] cells.live(j) implies entry_ok(cells.entry(j)) by {
                    assert(pre.live(j));
                    assert(cells.master_list@[j] == cells.master_list@[j]);
                }
                assert forall|j: int, k: int|
                    0 <= j < i + 1 && cells.live(j) && 0 <= k < cells.entry(j).data.connected_cells@.len()
                        implies cells.id_valid_spec(#[trigger] cells.entry(j).data.connected_cells@[k]) by {
                    if j != i {
                        assert(cells.master_list@[j] == pre.master_list@[j]);
                        let x = cells.entry(j).data.connected_cells@[k];
                        assert(pre.id_valid_spec(x));
                        assert(cells.master_list@[x.0 as int] == cells.master_list@[x.0 as int]);
                    }
                }
            }
        }
        else {
            proof {
                assert(!start.live(i as int));
            }
        }
        i = i + 1;
    }
    assert(connections_valid(*cells));
    assert(pruned_from(start, *cells));
    assert forall|j: int| 0 <= j < start.slot_count() implies #[trigger] cells.generation(j) == start.generation(j) by {
        assert(cells.master_list@[j] == cells.master_list@[j]);
    }

}

/// The slot table has the size and the generations of `start`.
pub open spec fn keeps_slots(start: EntityContainer<Cell>, cells: EntityContainer<Cell>) -> bool {
    &&& cells.slot_count() == start.slot_count()
    &&& forall|j: int| 0 <= j < start.slot_count() ==> #[trigger] cells.generation(j) == start.generation(j)
}

/// Cells and container layout agree with `start` on liveness, generations and
/// positional records.
pub open spec fn same_layout(start: EntityContainer<Cell>, cells: EntityContainer<Cell>) -> bool {
    &&& cells.entities_by_pos == start.entities_by_pos
    &&& cells.current_index == start.current_index
    &&& cells.empty_slots == start.empty_slots
    &&& cells.master_list@.len() == start.master_list@.len()
    &&& forall|j: int| #![trigger cells.master_list@[j]] 0 <= j < start.master_list@.len() ==> {
        &&& (cells.live(j) <==> start.live(j))
        &&& cells.generation(j) == start.generation(j)
        &&& (start.live(j) ==> {
            &&& cells.raw_of(j) == start.raw_of(j)
            &&& cells.entry(j).data.health == start.entry(j).data.health
            &&& cells.entry(j).data.energy == start.entry(j).data.energy
            &&& cells.entry(j).data.material == start.entry(j).data.material
            &&& cells.entry(j).data.x_vel == start.entry(j).data.x_vel
            &&& cells.entry(j).data.y_vel == start.entry(j).data.y_vel
            &&& cells.entry(j).data.is_active == start.entry(j).data.is_active
        })
    }
}

/// One full tick: prune dangling connections; compute every live cell against the
/// unchanged container; apply all the changes; synchronise both containers (removals
/// take effect, buckets catch up); then insert the food of the cells that died.
#[verifier::rlimit(100)]
pub fn update_cells(world: &mut World, dt: i64)
    requires
        old(world).wf(),
        0 <= dt <= LIMIT,
    ensures
        tick_post(*old(world), *final(world), dt as int),
{
    let ghost start = world.cells;
    let len = world.cells.master_list.len();

    // remove invalid ids
    remove_all_invalid_ids(&mut world.cells);

    // compute every cell against the unchanged container, in parallel
    let ghost pruned = world.cells;
    let mut all_updates = compute_all(&world.cells, dt);
    let ghost computed = all_updates@;
    let mut in_order: Vec<WorldUpdates> = Vec::new();
    while all_updates.len() > 0
        invariant
            in_order@.len() + all_updates@.len() == computed.len(),
            all_updates@ == computed.subrange(0, all_updates@.len() as int),
            forall|j: int| 0 <= j < in_order@.len() ==> #[trigger] in_order@[j] == computed[computed.len() - 1 - j],
        decreases all_updates@.len(),
    {
        let last = all_updates.pop().unwrap();
        in_order.push(last);
    }
    let mut all_changes: Vec<ChangeUpdate> = Vec::new();
    let mut all_additions: Vec<AdditionUpdate> = Vec::new();
    while in_order.len() > 0
        invariant
            forall|j: int| 0 <= j < in_order@.len() ==> #[trigger] in_order@[j] == computed[computed.len() - 1 - j],
            in_order@.len() <= computed.len(),
            computed.len() == world.cells.slot_count(),
            forall|j: int| 0 <= j < computed.len() ==> slot_updates_post(world.cells, j, dt as int, #[trigger] computed[j]),
            all_in_bounds(all_changes@),
            world.cells == pruned,
            world.food == old(world).food,
            world.wf(),
            all_additions@ == dead_foods(pruned, computed.len() - in_order@.len()),
            all_changes@ == tick_changes(pruned, computed.len() - in_order@.len(), dt as int),
            forall|k: int| 0 <= k < all_changes@.len() ==> own_ok(pruned, dt as int, #[trigger] all_changes@[k]),
            forall|j: int| 0 <= j < computed.len() - in_order@.len() && #[trigger] pruned.live(j) ==> {
                &&& all_changes@.contains(pos_change(pruned, j, dt as int))
                &&& act_mismatch(pruned, j) ==> all_changes@.contains(act_change(pruned, j))
                &&& is_dead(pruned, j) ==> all_changes@.contains(ChangeUpdate::SetCellShouldBeRemoved(j as usize, true))
            },
        decreases in_order@.len(),
    {
        let mut updates = in_order.pop().unwrap();
        let ghost before = all_changes@;
        let ghost produced = updates.changes@;
        let ghost added = updates.additions@;
        let ghost before_additions = all_additions@;
        let ghost m = computed.len() - 1 - in_order@.len();
        proof {
            assert(0 <= m < computed.len());
            assert(computed.len() <= crate::entity_container::MAX_SLOTS);
            assert(updates == computed[m]);
            assert(slot_updates_post(world.cells, m, dt as int, computed[m]));
            lemma_slot_own(pruned, m as usize, dt as int, updates);
            if is_dead(pruned, m) {
                assert(added == seq![AdditionUpdate::Food(food_of(pruned.entry(m)))]);
            } else {
                assert(added =~= Seq::<AdditionUpdate>::empty());
            }
            assert(dead_foods(pruned, m + 1) == dead_foods(pruned, m) + added);
            if !pruned.live(m) {
                assert(produced =~= Seq::<ChangeUpdate>::empty());
            }
            assert(produced == slot_changes(pruned, m, dt as int));
            assert(tick_changes(pruned, m + 1, dt as int) == tick_changes(pruned, m, dt as int) + produced);
        }
        all_changes.append(&mut updates.changes);
        all_additions.append(&mut updates.additions);
        proof {
            assert(all_changes@ == before + produced);
            assert forall|k: int| 0 <= k < all_changes@.len() implies (#[trigger] all_changes@[k]).in_bounds()
                && own_ok(pruned, dt as int, all_changes@[k]) by {
                if k >= before.len() {
                    assert(all_changes@[k] == produced[k - before.len()]);
                } else {
                    assert(all_changes@[k] == before[k]);
                }
            }
            assert forall|j: int| 0 <= j < computed.len() - in_order@.len() && #[trigger] pruned.live(j) implies {
                &&& all_changes@.contains(pos_change(pruned, j, dt as int))
                &&& act_mismatch(pruned, j) ==> all_changes@.contains(act_change(pruned, j))
                &&& is_dead(pruned, j) ==> all_changes@.contains(ChangeUpdate::SetCellShouldBeRemoved(j as usize, true))
            } by {
                if j == m {
                    let x = pos_change(pruned, j, dt as int);
                    let q = choose|q: int| 0 <= q < produced.len() && produced[q] == x;
                    assert(all_changes@[before.len() + q] == x);
                    if act_mismatch(pruned, j) {
                        let y = act_change(pruned, j);
                        let q = choose|q: int| 0 <= q < produced.len() && produced[q] == y;
                        assert(all_changes@[before.len() + q] == y);
                    }
                    if is_dead(pruned, j) {
                        let z = ChangeUpdate::SetCellShouldBeRemoved(j as usize, true);
                        let q = choose|q: int| 0 <= q < produced.len() && produced[q] == z;
                        assert(all_changes@[before.len() + q] == z);
                    }
                } else {
                    lemma_concat_contains(before, produced, pos_change(pruned, j, dt as int));
                    if act_mismatch(pruned, j) {
                        lemma_concat_contains(before, produced, act_change(pruned, j));
                    }
                    if is_dead(pruned, j) {
                        lemma_concat_contains(before, produced, ChangeUpdate::SetCellShouldBeRemoved(j as usize, true));
                    }
                }
            }
        }
    }

    // apply change updates
    let n = all_changes.len();
    let mut k: usize = 0;
    proof {
        assert forall|j: int| #[trigger] world.cells.live(j) implies followed(pruned, world.cells, all_changes@.subrange(0, 0), j, dt as int) by {
            assert(all_changes@.subrange(0, 0) =~= Seq::<ChangeUpdate>::empty());
        }
        assert(all_changes@.subrange(0, 0) =~= Seq::<ChangeUpdate>::empty());
    }
    while k < n
        invariant
            world.wf(),
            world.food == old(world).food,
            n == all_changes@.len(),
            k <= n,
            all_in_bounds(all_changes@),
            keeps_slots(start, world.cells),
            world.cells.slot_count() == pruned.slot_count(),
            forall|j: int| 0 <= j < pruned.slot_count() ==> (#[trigger] world.cells.live(j) <==> pruned.live(j)),
            forall|q: int| 0 <= q < all_changes@.len() ==> own_ok(pruned, dt as int, #[trigger] all_changes@[q]),
            forall|j: int| #[trigger] world.cells.live(j) ==> followed(pruned, world.cells, all_changes@.subrange(0, k as int), j, dt as int),
            world.cells.master_list@ == apply_all(pruned.master_list@, all_changes@.subrange(0, k as int)),
            forall|j: int| 0 <= j < pruned.slot_count() && #[trigger] pruned.live(j) ==> {
                &&& all_changes@.contains(pos_change(pruned, j, dt as int))
                &&& act_mismatch(pruned, j) ==> all_changes@.contains(act_change(pruned, j))
                &&& is_dead(pruned, j) ==> all_changes@.contains(ChangeUpdate::SetCellShouldBeRemoved(j as usize, true))
            },
        decreases n - k,
    {
        let ghost pre = world.cells;
        let ch = all_changes[k];
        apply_change_update(ch, &mut world.cells);
        proof {
            assert forall|j: int| 0 <= j < start.slot_count() implies #[trigger] world.cells.generation(j) == start.generation(j) by {
                assert(world.cells.master_list@[j] == world.cells.master_list@[j]);
                assert(pre.generation(j) == start.generation(j));
            }
            assert forall|j: int| 0 <= j < pruned.slot_count() implies (#[trigger] world.cells.live(j) <==> pruned.live(j)) by {
                assert(world.cells.master_list@[j] == world.cells.master_list@[j]);
                assert(pre.live(j) <==> pruned.live(j));
            }
            assert(all_changes@.subrange(0, k + 1) =~= all_changes@.subrange(0, k as int).push(ch));
            assert(all_changes@.subrange(0, k + 1).drop_last() == all_changes@.subrange(0, k as int));
            assert(world.cells.master_list@ =~= apply_change_slots(pre.master_list@, ch)) by {
                assert forall|j: int| 0 <= j < pre.master_list@.len() implies world.cells.master_list@[j] == apply_change_slots(pre.master_list@, ch)[j] by {
                    assert(world.cells.master_list@[j] == world.cells.master_list@[j]);
                }
            }
            assert forall|j: int| #[trigger] world.cells.live(j) implies followed(pruned, world.cells, all_changes@.subrange(0, k + 1), j, dt as int) by {
                assert(world.cells.master_list@[j] == world.cells.master_list@[j]);
                assert(pre.live(j));
                assert(pruned.live(j));
                assert(own_ok(pruned, dt as int, all_changes@[k as int]));
                assert(pre.wf());
                lemma_apply_followed(pruned, pre, world.cells, ch, all_changes@.subrange(0, k as int), j, dt as int);
            }
        }
        k = k + 1;
    }
    proof {
        assert(all_changes@.subrange(0, n as int) =~= all_changes@);
    }

    // sync fields (and remove entities)
    let ghost before_sync = world.cells;
    world.cells.sync_fields();
    world.food.sync_fields();
    proof {
        assert forall|j: int| #[trigger] world.cells.live(j) implies entry_ok(world.cells.entry(j)) by {
            assert(world.cells.master_list@[j] == EntityContainer::<Cell>::synced_slot(before_sync.master_list@[j]));
            assert(before_sync.live(j));
            assert(entry_ok(before_sync.entry(j)));
        }
        assert forall|j: int| 0 <= j < start.slot_count() implies #[trigger] world.cells.generation(j) == start.generation(j) by {
            assert(world.cells.master_list@[j] == EntityContainer::<Cell>::synced_slot(before_sync.master_list@[j]));
            assert(before_sync.generation(j) == start.generation(j));
        }
        assert forall|j: int| 0 <= j < start.slot_count() implies (#[trigger] world.cells.live(j) <==> {
            &&& start.live(j)
            &&& start.entry(j).data.health > 0
            &&& !start.raw_of(j).should_be_removed
        }) && (world.cells.live(j) ==> {
            let e = start.entry(j);
            &&& world.cells.raw_of(j).x == integrate_spec(e.raw.x as int, e.data.x_vel as int, dt as int, GRID_WIDTH as int)
            &&& world.cells.raw_of(j).y == integrate_spec(e.raw.y as int, e.data.y_vel as int, dt as int, GRID_HEIGHT as int)
            &&& world.cells.entry(j).data.is_active == (e.data.energy > 0)
        }) by {
            let x = ChangeUpdate::SetCellShouldBeRemoved(j as usize, true);
            assert(world.cells.master_list@[j] == EntityContainer::<Cell>::synced_slot(before_sync.master_list@[j]));
            assert(pruned.master_list@[j] == pruned.master_list@[j]);
            assert(before_sync.live(j) <==> pruned.live(j));
            assert(pruned.live(j) <==> start.live(j));
            if start.live(j) {
                assert(before_sync.live(j));
                assert(pruned.live(j));
                assert(followed(pruned, before_sync, all_changes@, j, dt as int));
                assert(is_dead(pruned, j) <==> start.entry(j).data.health <= 0);
                if is_dead(pruned, j) {
                    assert(all_changes@.contains(x));
                }
                if all_changes@.contains(x) {
                    let q = choose|q: int| 0 <= q < all_changes@.len() && all_changes@[q] == x;
                    assert(own_ok(pruned, dt as int, all_changes@[q]));
                    assert(is_own(all_changes@[q]));
                }
                assert(all_changes@.contains(x) <==> is_dead(pruned, j));
                assert(all_changes@.contains(pos_change(pruned, j, dt as int)));
                if act_mismatch(pruned, j) {
                    assert(all_changes@.contains(act_change(pruned, j)));
                }
            }
        }
    }
    proof {
        assert(all_changes@ == tick_changes(pruned, pruned.slot_count(), dt as int));
        assert forall|i: int| 0 <= i < start.slot_count() implies #[trigger] world.cells.master_list@[i]
            == EntityContainer::<Cell>::synced_slot(apply_all(pruned.master_list@, tick_changes(pruned, pruned.slot_count(), dt as int))[i]) by {
            assert(world.cells.master_list@[i] == EntityContainer::<Cell>::synced_slot(before_sync.master_list@[i]));
        }
    }
    let ghost after_sync = world.cells;

    // apply addition updates, in the order they were produced
    let ghost food_mid = world.food;
    let ghost orig = all_additions@;
    let ghost n_slots = pruned.slot_count();
    proof {
        assert(orig == dead_foods(pruned, n_slots));
        lemma_dead_foods(pruned, n_slots);
        assert forall|i: int| 0 <= i < n_slots implies (#[trigger] is_dead(pruned, i) <==> is_dead(start, i)) by {
            assert(pruned.master_list@[i] == pruned.master_list@[i]);
        }
        lemma_dead_count_same(pruned, start, n_slots);
    }
    let mut reversed: Vec<AdditionUpdate> = Vec::new();
    while all_additions.len() > 0
        invariant
            reversed@.len() + all_additions@.len() == orig.len(),
            all_additions@ == orig.subrange(0, all_additions@.len() as int),
            forall|j: int| 0 <= j < reversed@.len() ==> #[trigger] reversed@[j] == orig[orig.len() - 1 - j],
        decreases all_additions@.len(),
    {
        let last = all_additions.pop().unwrap();
        reversed.push(last);
    }
    while reversed.len() > 0
        invariant
            world.wf(),
            world.food.all_synced(),
            world.cells.all_synced(),
            world.cells.slot_count() == start.slot_count(),
            forall|j: int| 0 <= j < start.slot_count() ==> #[trigger] world.cells.generation(j) == start.generation(j),
            world.cells == after_sync,
            reversed@.len() <= orig.len(),
            forall|j: int| 0 <= j < reversed@.len() ==> #[trigger] reversed@[j] == orig[orig.len() - 1 - j],
            food_mid.live_count() + orig.len() <= MAX_ENTITIES_COUNT ==> {
                &&& world.food.live_count() == food_mid.live_count() + (orig.len() - reversed@.len())
                &&& forall|q: int| 0 <= q < orig.len() - reversed@.len() ==> stores_food(world.food, addition_food(#[trigger] orig[q]))
            },
        decreases reversed@.len(),
    {
        let ghost p = orig.len() - reversed@.len();
        let ghost pre_food = world.food;
        let a = reversed.pop().unwrap();
        proof {
            assert(a == orig[p]);
        }
        apply_addition_update(a, world);
        proof {
            if food_mid.live_count() + orig.len() <= MAX_ENTITIES_COUNT {
                let f = addition_food(a);
                let r = choose|r: Option<EntityID>| #[trigger] EntityContainer::add_post(pre_food, f, r, world.food);
                assert(pre_food.live_count() < MAX_ENTITIES_COUNT);
                lemma_add_grows(pre_food, f, r, world.food);
                let id = r.unwrap();
                assert(world.food.id_valid_spec(id));
                assert forall|q: int| 0 <= q < orig.len() - reversed@.len() implies stores_food(world.food, addition_food(#[trigger] orig[q])) by {
                    if q < p {
                        assert(stores_food(pre_food, addition_food(orig[q])));
                        let g = addition_food(orig[q]);
                        let old_id = choose|x: EntityID| #[trigger] pre_food.id_valid_spec(x)
                            && pre_food.entry(x.0 as int) == (Entry { raw: g.raw.synced(), data: g.data });
                        assert(world.food.id_valid_spec(old_id));
                    } else {
                        assert(q == p);
                        assert(world.food.id_valid_spec(id));
                    }
                }
            }
        }
    }
    proof {
        assert(EntityContainer::sync_post(old(world).food, food_mid));
        if food_mid.live_count() + dead_count(start, n_slots) <= MAX_ENTITIES_COUNT {
            assert forall|i: int| 0 <= i < n_slots && #[trigger] is_dead(start, i) implies stores_food(world.food, food_of(start.entry(i))) by {
                assert(is_dead(pruned, i));
                assert(pruned.master_list@[i] == pruned.master_list@[i]);
                assert(food_of(pruned.entry(i)) == food_of(start.entry(i)));
                let x = AdditionUpdate::Food(food_of(pruned.entry(i)));
                assert(orig.contains(x));
                let q = choose|q: int| 0 <= q < orig.len() && orig[q] == x;
                assert(stores_food(world.food, addition_food(orig[q])));
            }
        }
    }
}

/// Inserts a deferred entity.
pub fn apply_addition_update(update: AdditionUpdate, world: &mut World)
    requires
        old(world).wf(),
        old(world).food.all_synced(),
    ensures
        final(world).wf(),
        final(world).food.all_synced(),
        final(world).cells == old(world).cells,
        match update {
            AdditionUpdate::Food(f) => exists|r: Option<EntityID>| #[trigger] EntityContainer::add_post(old(world).food, f, r, final(world).food),
        },
{
    match update {
        AdditionUpdate::Food(food) => {
            let ghost f = food;
            let r = world.food.add_entity(food);
            proof {
                assert forall|j: int| #[trigger] world.food.live(j) implies world.food.raw_of(j).is_synced() by {
                    if r is None || j != r.unwrap().0 {
                        assert(old(world).food.live(j));
                        assert(world.food.master_list@[j] == old(world).food.master_list@[j]);
                    }
                }
                assert(EntityContainer::add_post(old(world).food, f, r, world.food));
            }
        },
    }
}

} // verus!

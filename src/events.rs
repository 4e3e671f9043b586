use vstd::prelude::*;
use crate::cell_data::{vec_len, vec_len_spec};
use crate::entity_container::{near_ids, EntityContainer, EntityID, RawEntity, get_entity_ids_near_pos, near_axis, GRID_WIDTH, GRID_HEIGHT};
use crate::fixed::{LIMIT, saturate, add_spec, div_spec, fx_add, fx_div};
use crate::physics::HALF;

verus! {

/// Clamps a machine integer into the representable band.
fn fx_clamp(v: i64) -> (r: i64)
    ensures
        r == saturate(v as int),
{
    if v > LIMIT {
        LIMIT
    } else if v < -LIMIT {
        -LIMIT
    } else {
        v
    }
}

/// Whether the point `map_pos` lies on the entity: its offset from the entity's centre,
/// measured in widths and heights of the entity, is at most one half long.
pub open spec fn hits(raw: RawEntity, map_pos: (i64, i64)) -> bool {
    let dx = div_spec(add_spec(saturate(map_pos.0 as int), -saturate(raw.x as int)), saturate(raw.width as int));
    let dy = div_spec(add_spec(saturate(map_pos.1 as int), -saturate(raw.y as int)), saturate(raw.height as int));
    vec_len_spec((dx, dy)) <= HALF
}

fn hit_test(raw: &RawEntity, map_pos: (i64, i64)) -> (r: bool)
    ensures
        r == hits(*raw, map_pos),
{
    let dx = fx_div(fx_add(fx_clamp(map_pos.0), -fx_clamp(raw.x)), fx_clamp(raw.width));
    let dy = fx_div(fx_add(fx_clamp(map_pos.1), -fx_clamp(raw.y)), fx_clamp(raw.height));
    vec_len((dx, dy)) <= HALF
}

/// The first entity, in the order of the neighbour query around `grid_pos`, that the
/// point `map_pos` lies on, if any.
pub fn get_entity_at_pos<T>(grid_pos: (usize, usize), map_pos: (i64, i64), entities: &EntityContainer<T>) -> (r: Option<EntityID>)
    requires
        entities.wf(),
    ensures
        r matches Some(id) ==> {
            &&& entities.id_valid_spec(id)
            &&& near_axis(entities.raw_of(id.0 as int).current_grid_x as int, grid_pos.0 as int, GRID_WIDTH as int)
            &&& near_axis(entities.raw_of(id.0 as int).current_grid_y as int, grid_pos.1 as int, GRID_HEIGHT as int)
            &&& hits(entities.raw_of(id.0 as int), map_pos)
            &&& exists|k: int|
                0 <= k < near_ids(*entities, grid_pos.0 as int, grid_pos.1 as int).len()
                && #[trigger] near_ids(*entities, grid_pos.0 as int, grid_pos.1 as int)[k] == id
                && forall|j: int| 0 <= j < k ==> !hits(
                    entities.raw_of(near_ids(*entities, grid_pos.0 as int, grid_pos.1 as int)[j].0 as int),
                    map_pos,
                )
        },
        r is None ==> forall|id: EntityID|
            entities.id_valid_spec(id)
            && near_axis(entities.raw_of(id.0 as int).current_grid_x as int, grid_pos.0 as int, GRID_WIDTH as int)
            && near_axis(entities.raw_of(id.0 as int).current_grid_y as int, grid_pos.1 as int, GRID_HEIGHT as int)
            ==> !hits(#[trigger] entities.raw_of(id.0 as int), map_pos),
{
    let entity_ids = get_entity_ids_near_pos(grid_pos, entities);
    let n = entity_ids.len();
    let mut k: usize = 0;
    while k < n
        invariant
            entities.wf(),
            n == entity_ids@.len(),
            k <= n,
            forall|id: EntityID| #[trigger] entity_ids@.contains(id) <==> {
                &&& entities.id_valid_spec(id)
                &&& near_axis(entities.raw_of(id.0 as int).current_grid_x as int, grid_pos.0 as int, GRID_WIDTH as int)
                &&& near_axis(entities.raw_of(id.0 as int).current_grid_y as int, grid_pos.1 as int, GRID_HEIGHT as int)
            },
            forall|j: int| 0 <= j < k ==> !hits(entities.raw_of((#[trigger] entity_ids@[j]).0 as int), map_pos),
            entity_ids@ == near_ids(*entities, grid_pos.0 as int, grid_pos.1 as int),
        decreases n - k,
    {
        let id = entity_ids[k];
        assert(entity_ids@.contains(id));
        let raw = &entities.master_list[id.0].0.as_ref().unwrap().raw;
        if hit_test(raw, map_pos) {
            proof {
                let near = near_ids(*entities, grid_pos.0 as int, grid_pos.1 as int);
                assert(near[k as int] == id);
            }
            return Some(id);
        }
        k = k + 1;
    }
    proof {
        assert forall|id: EntityID|
            entities.id_valid_spec(id)
            && near_axis(entities.raw_of(id.0 as int).current_grid_x as int, grid_pos.0 as int, GRID_WIDTH as int)
            && near_axis(entities.raw_of(id.0 as int).current_grid_y as int, grid_pos.1 as int, GRID_HEIGHT as int)
            implies !hits(#[trigger] entities.raw_of(id.0 as int), map_pos) by {
            assert(entity_ids@.contains(id));
            let j = choose|j: int| 0 <= j < entity_ids@.len() && entity_ids@[j] == id;
            assert(!hits(entities.raw_of((entity_ids@[j]).0 as int), map_pos));
        }
    }
    None
}

} // verus!

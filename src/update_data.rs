use vstd::prelude::*;
use crate::cell_data::Food;
use crate::entity_container::{Entry, EntityID};
use crate::fixed::in_range;

verus! {

/// A scalar change addressed to a cell by slot index, produced while computing a tick
/// and applied afterwards.
#[derive(Debug, Clone, Copy, PartialEq, Eq, Structural)]
pub enum ChangeUpdate {
    ChangeCellHealth(usize, i64),
    ChangeCellEnergy(usize, i64),
    ChangeCellMaterial(usize, i64),
    SetCellPos(usize, i64, i64),
    ChangeCellVel(usize, i64, i64),
    SetCellIsActive(usize, bool),
    SetCellShouldBeRemoved(usize, bool),
    ChangeCellFatExtraEnergy(usize, i64),
    ChangeCellFatExtraMaterial(usize, i64),
}

/// An entity to insert once the tick's changes are applied.
pub enum AdditionUpdate {
    Food(Entry<Food>),
}

pub struct WorldUpdates {
    pub changes: Vec<ChangeUpdate>,
    pub additions: Vec<AdditionUpdate>,
}

/// Accumulated changes a cell makes to its own velocity and stores.
#[derive(Debug, Clone, Copy, PartialEq, Eq, Structural)]
pub struct CellChangesGroup {
    pub x_vel_change: i64,
    pub y_vel_change: i64,
    pub energy_change: i64,
    pub material_change: i64,
}

impl ChangeUpdate {
    /// Every quantity the change carries lies in the representable band.
    pub open spec fn in_bounds(self) -> bool {
        match self {
            ChangeUpdate::ChangeCellHealth(_, v) => in_range(v as int),
            ChangeUpdate::ChangeCellEnergy(_, v) => in_range(v as int),
            ChangeUpdate::ChangeCellMaterial(_, v) => in_range(v as int),
            ChangeUpdate::SetCellPos(_, x, y) => in_range(x as int) && in_range(y as int),
            ChangeUpdate::ChangeCellVel(_, x, y) => in_range(x as int) && in_range(y as int),
            ChangeUpdate::ChangeCellFatExtraEnergy(_, v) => in_range(v as int),
            ChangeUpdate::ChangeCellFatExtraMaterial(_, v) => in_range(v as int),
            _ => true,
        }
    }
}

impl WorldUpdates {
    pub fn new() -> (r: Self)
        ensures
            r.changes@.len() == 0,
            r.additions@.len() == 0,
    {
        WorldUpdates { changes: Vec::new(), additions: Vec::new() }
    }

    pub fn push_change(&mut self, change: ChangeUpdate)
        ensures
            final(self).changes@ == old(self).changes@.push(change),
            final(self).additions@ == old(self).additions@,
    {
        self.changes.push(change);
    }

    pub fn push_addition(&mut self, addition: AdditionUpdate)
        ensures
            final(self).changes@ == old(self).changes@,
            final(self).additions@ == old(self).additions@.push(addition),
    {
        self.additions.push(addition);
    }
}

impl CellChangesGroup {
    pub open spec fn in_bounds(self) -> bool {
        &&& in_range(self.x_vel_change as int)
        &&& in_range(self.y_vel_change as int)
        &&& in_range(self.energy_change as int)
        &&& in_range(self.material_change as int)
    }

    pub fn new() -> (r: Self)
        ensures
            r == (CellChangesGroup { x_vel_change: 0, y_vel_change: 0, energy_change: 0, material_change: 0 }),
    {
        CellChangesGroup { x_vel_change: 0, y_vel_change: 0, energy_change: 0, material_change: 0 }
    }

    /// The changes this group stands for, addressed to slot `i`.
    pub open spec fn as_changes(self, i: usize) -> Seq<ChangeUpdate> {
        let base = seq![
            ChangeUpdate::ChangeCellVel(i, self.x_vel_change, self.y_vel_change),
            ChangeUpdate::ChangeCellEnergy(i, self.energy_change),
        ];
        if self.material_change != 0 {
            base.push(ChangeUpdate::ChangeCellMaterial(i, self.material_change))
        } else {
            base
        }
    }

    /// Queues the accumulated velocity and energy changes, and the material change if
    /// there is one, for the cell `cell_id`.
    pub fn add_self_to_world_updates(self, all_updates: &mut WorldUpdates, cell_id: EntityID)
        ensures
            final(all_updates).changes@ == old(all_updates).changes@ + self.as_changes(cell_id.0),
            final(all_updates).additions@ == old(all_updates).additions@,
    {
        all_updates.changes.push(ChangeUpdate::ChangeCellVel(cell_id.0, self.x_vel_change, self.y_vel_change));
        all_updates.changes.push(ChangeUpdate::ChangeCellEnergy(cell_id.0, self.energy_change));
        if self.material_change != 0 {
            all_updates.changes.push(ChangeUpdate::ChangeCellMaterial(cell_id.0, self.material_change));
        }
        proof {
            let base = seq![
                ChangeUpdate::ChangeCellVel(cell_id.0, self.x_vel_change, self.y_vel_change),
                ChangeUpdate::ChangeCellEnergy(cell_id.0, self.energy_change),
            ];
            assert(old(all_updates).changes@ + base == old(all_updates).changes@.push(base[0]).push(base[1]));
            if self.material_change != 0 {
                assert(old(all_updates).changes@ + base.push(ChangeUpdate::ChangeCellMaterial(cell_id.0, self.material_change))
                    =~= old(all_updates).changes@.push(base[0]).push(base[1]).push(ChangeUpdate::ChangeCellMaterial(cell_id.0, self.material_change)));
            }
        }
    }
}

} // verus!

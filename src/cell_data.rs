use vstd::prelude::*;
use crate::entity_container::{Entry, EntityID, RawEntity};
use crate::fixed::{UNIT, in_range, add_spec, fx_add, fx_sub, fx_sqrt, fx_mul, mul_spec, sqrt_spec};

verus! {

// Every quantity below is fixed-point: `UNIT` stands for 1.0.
pub const CELL_DRAG_COEF: i64 = 100_000;
pub const CELL_CONNECTION_FORCE: i64 = 10_000_000;
pub const CELL_CONNECTION_DRAG: i64 = 3_000_000;
pub const CELL_CONNECTION_DISTANCE: i64 = 1_100_000;
pub const CELL_INTERSECTION_FORCE: i64 = 50_000_000;

pub const CELL_ENERGY_USE_RATE: i64 = 1_000;
pub const CELL_HEALING_RATE: i64 = 100_000;
pub const CELL_HEALING_ENERGY_COST: i64 = 200_000;
pub const CELL_HEALING_MATERIAL_COST: i64 = 500_000;
pub const CELL_ENERGY_TRANSFER_RATE: i64 = 250_000;
pub const CELL_ENERGY_TRANSFER_THRESHOLD: i64 = 25_000;
pub const CELL_MATERIAL_TRANSFER_RATE: i64 = 100_000;
pub const CELL_MATERIAL_TRANSFER_THRESHOLD: i64 = 25_000;

pub const CELL_FAT_ENERGY_STORE_THRESHOLD: i64 = 750_000;
pub const CELL_FAT_ENERGY_RELEASE_THRESHOLD: i64 = 500_000;
pub const CELL_FAT_ENERGY_STORE_RATE: i64 = 100_000;
pub const CELL_FAT_ENERGY_RELEASE_RATE: i64 = 100_000;
pub const CELL_FAT_MATERIAL_STORE_THRESHOLD: i64 = 750_000;
pub const CELL_FAT_MATERIAL_RELEASE_THRESHOLD: i64 = 500_000;
pub const CELL_FAT_MATERIAL_STORE_RATE: i64 = 100_000;
pub const CELL_FAT_MATERIAL_RELEASE_RATE: i64 = 100_000;

pub const CELL_PHOTOSYNTHESISER_RATE: i64 = 25_000;

#[derive(Debug, Clone, Copy, PartialEq, Eq, Structural)]
pub struct FatCellData {
    pub extra_energy: i64,
    pub extra_material: i64,
    pub energy_store_threshold: i64,
    pub energy_release_threshold: i64,
    pub energy_store_rate: i64,
    pub energy_release_rate: i64,
    pub material_store_threshold: i64,
    pub material_release_threshold: i64,
    pub material_store_rate: i64,
    pub material_release_rate: i64,
}

#[derive(Debug, Clone, Copy, PartialEq, Eq, Structural)]
pub enum RawCell {
    Fat(FatCellData),
    Photosynthesiser,
}

#[derive(Debug)]
pub struct Cell {
    pub is_active: bool,
    pub health: i64,
    pub energy: i64,
    pub material: i64,
    pub x_vel: i64,
    pub y_vel: i64,
    pub raw_cell: RawCell,
    /// Undirected connections, stored on both endpoints.
    pub connected_cells: Vec<EntityID>,
}

/// Passive entity left behind by a dead cell.
#[derive(Debug)]
pub struct Food {
    pub energy: i64,
    pub material: i64,
}

impl FatCellData {
    pub open spec fn in_bounds(self) -> bool {
        &&& in_range(self.extra_energy as int)
        &&& in_range(self.extra_material as int)
        &&& in_range(self.energy_store_threshold as int)
        &&& in_range(self.energy_release_threshold as int)
        &&& in_range(self.energy_store_rate as int)
        &&& in_range(self.energy_release_rate as int)
        &&& in_range(self.material_store_threshold as int)
        &&& in_range(self.material_release_threshold as int)
        &&& in_range(self.material_store_rate as int)
        &&& in_range(self.material_release_rate as int)
    }
}

impl RawCell {
    pub open spec fn in_bounds(self) -> bool {
        match self {
            RawCell::Fat(f) => f.in_bounds(),
            RawCell::Photosynthesiser => true,
        }
    }

    pub fn new_fat_cell() -> (r: Self)
        ensures
            r == RawCell::Fat(FatCellData {
                extra_energy: 0,
                extra_material: 0,
                energy_store_threshold: CELL_FAT_ENERGY_STORE_THRESHOLD,
                energy_release_threshold: CELL_FAT_ENERGY_RELEASE_THRESHOLD,
                energy_store_rate: CELL_FAT_ENERGY_STORE_RATE,
                energy_release_rate: CELL_FAT_ENERGY_RELEASE_RATE,
                material_store_threshold: CELL_FAT_MATERIAL_STORE_THRESHOLD,
                material_release_threshold: CELL_FAT_MATERIAL_RELEASE_THRESHOLD,
                material_store_rate: CELL_FAT_MATERIAL_STORE_RATE,
                material_release_rate: CELL_FAT_MATERIAL_RELEASE_RATE,
            }),
    {
        RawCell::Fat(FatCellData {
            extra_energy: 0,
            extra_material: 0,
            energy_store_threshold: CELL_FAT_ENERGY_STORE_THRESHOLD,
            energy_release_threshold: CELL_FAT_ENERGY_RELEASE_THRESHOLD,
            energy_store_rate: CELL_FAT_ENERGY_STORE_RATE,
            energy_release_rate: CELL_FAT_ENERGY_RELEASE_RATE,
            material_store_threshold: CELL_FAT_MATERIAL_STORE_THRESHOLD,
            material_release_threshold: CELL_FAT_MATERIAL_RELEASE_THRESHOLD,
            material_store_rate: CELL_FAT_MATERIAL_STORE_RATE,
            material_release_rate: CELL_FAT_MATERIAL_RELEASE_RATE,
        })
    }

    pub fn new_photosynthesiser_cell() -> (r: Self)
        ensures
            r == RawCell::Photosynthesiser,
    {
        RawCell::Photosynthesiser
    }
}

impl Cell {
    /// Every quantity of the cell lies in the representable band.
    pub open spec fn in_bounds(&self) -> bool {
        &&& in_range(self.health as int)
        &&& in_range(self.energy as int)
        &&& in_range(self.material as int)
        &&& in_range(self.x_vel as int)
        &&& in_range(self.y_vel as int)
        &&& self.raw_cell.in_bounds()
    }

    /// An active cell at rest at `(x, y)`, one unit wide, with no connections.
    pub fn new(raw_cell: RawCell, x: i64, y: i64, health: i64, energy: i64, material: i64) -> (r: Entry<Cell>)
        ensures
            r.raw == RawEntity::new_spec(x, y, UNIT as i64, UNIT as i64),
            r.data.is_active,
            r.data.health == health,
            r.data.energy == energy,
            r.data.material == material,
            r.data.x_vel == 0,
            r.data.y_vel == 0,
            r.data.raw_cell == raw_cell,
            r.data.connected_cells@.len() == 0,
    {
        Cell::new_with_vel(raw_cell, (x, y), health, energy, material, (0, 0))
    }

    /// An active cell at `pos` moving at `vel`, one unit wide, with no connections.
    pub fn new_with_vel(raw_cell: RawCell, pos: (i64, i64), health: i64, energy: i64, material: i64, vel: (i64, i64)) -> (r: Entry<Cell>)
        ensures
            r.raw == RawEntity::new_spec(pos.0, pos.1, UNIT as i64, UNIT as i64),
            r.data.is_active,
            r.data.health == health,
            r.data.energy == energy,
            r.data.material == material,
            r.data.x_vel == vel.0,
            r.data.y_vel == vel.1,
            r.data.raw_cell == raw_cell,
            r.data.connected_cells@.len() == 0,
    {
        Entry {
            raw: RawEntity::new(pos.0, pos.1, UNIT, UNIT),
            data: Cell {
                is_active: true,
                health,
                energy,
                material,
                x_vel: vel.0,
                y_vel: vel.1,
                raw_cell,
                connected_cells: Vec::new(),
            },
        }
    }
}

/// Vector between two points, `b - a`, per axis saturating.
pub open spec fn delta_spec(a: (int, int), b: (int, int)) -> (int, int) {
    (add_spec(b.0, -a.0), add_spec(b.1, -a.1))
}

/// Squared length of a vector.
pub open spec fn len_sq_spec(v: (int, int)) -> int {
    add_spec(mul_spec(v.0, v.0), mul_spec(v.1, v.1))
}

pub open spec fn vec_len_spec(v: (int, int)) -> int {
    sqrt_spec(len_sq_spec(v))
}

proof fn lemma_square_nonneg(a: int)
    requires
        in_range(a),
    ensures
        0 <= mul_spec(a, a) <= crate::fixed::LIMIT,
{
    assert(a * a >= 0) by (nonlinear_arith);
    vstd::arithmetic::div_mod::lemma_div_pos_is_pos(a * a, UNIT as int);
}

/// Length of a vector.
pub fn vec_len(v: (i64, i64)) -> (r: i64)
    requires
        in_range(v.0 as int),
        in_range(v.1 as int),
    ensures
        r == vec_len_spec((v.0 as int, v.1 as int)),
        0 <= r <= crate::fixed::LIMIT,
{
    proof {
        lemma_square_nonneg(v.0 as int);
        lemma_square_nonneg(v.1 as int);
    }
    fx_sqrt(fx_add(fx_mul(v.0, v.0), fx_mul(v.1, v.1)))
}

impl Entry<Cell> {
    /// Displacement from this cell to `other`.
    pub fn pos_change_to(&self, other: &Entry<Cell>) -> (r: (i64, i64))
        requires
            in_range(self.raw.x as int),
            in_range(self.raw.y as int),
            in_range(other.raw.x as int),
            in_range(other.raw.y as int),
        ensures
            (r.0 as int, r.1 as int) == delta_spec((self.raw.x as int, self.raw.y as int), (other.raw.x as int, other.raw.y as int)),
    {
        (fx_sub(other.raw.x, self.raw.x), fx_sub(other.raw.y, self.raw.y))
    }

    /// Velocity of `other` relative to this cell.
    pub fn vel_change_to(&self, other: &Entry<Cell>) -> (r: (i64, i64))
        requires
            self.data.in_bounds(),
            other.data.in_bounds(),
        ensures
            (r.0 as int, r.1 as int) == delta_spec((self.data.x_vel as int, self.data.y_vel as int), (other.data.x_vel as int, other.data.y_vel as int)),
    {
        (fx_sub(other.data.x_vel, self.data.x_vel), fx_sub(other.data.y_vel, self.data.y_vel))
    }

    /// Distance between the two cells' centres.
    pub fn distance_to(&self, other: &Entry<Cell>) -> (r: i64)
        requires
            in_range(self.raw.x as int),
            in_range(self.raw.y as int),
            in_range(other.raw.x as int),
            in_range(other.raw.y as int),
        ensures
            r == vec_len_spec(delta_spec((self.raw.x as int, self.raw.y as int), (other.raw.x as int, other.raw.y as int))),
    {
        let d = self.pos_change_to(other);
        vec_len(d)
    }
}

impl Food {
    /// Side length of a food entity holding `material`: `material / 4 + 1/4`.
    pub open spec fn size_spec(material: int) -> int {
        add_spec(crate::fixed::div_trunc(material, 4), UNIT / 4)
    }

    pub fn new(x: i64, y: i64, energy: i64, material: i64) -> (r: Entry<Food>)
        requires
            in_range(material as int),
        ensures
            r.raw == RawEntity::new_spec(x, y, Food::size_spec(material as int) as i64, Food::size_spec(material as int) as i64),
            r.data.energy == energy,
            r.data.material == material,
    {
        let quarter: i64 = if material >= 0 { material / 4 } else { -((-material) / 4) };
        let size = fx_add(quarter, UNIT / 4);
        Entry { raw: RawEntity::new(x, y, size, size), data: Food { energy, material } }
    }

    /// Food carrying a cell's stored energy and material, at the cell's position.
    pub fn from_cell(cell: &Entry<Cell>) -> (r: Entry<Food>)
        requires
            cell.data.in_bounds(),
        ensures
            r.raw == RawEntity::new_spec(cell.raw.x, cell.raw.y, Food::size_spec(cell.data.material as int) as i64, Food::size_spec(cell.data.material as int) as i64),
            r.data.energy == cell.data.energy,
            r.data.material == cell.data.material,
    {
        Food::new(cell.raw.x, cell.raw.y, cell.data.energy, cell.data.material)
    }
}

} // verus!

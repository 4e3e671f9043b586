use vstd::prelude::*;
use crate::cell_data::{
    CELL_DRAG_COEF, CELL_INTERSECTION_FORCE, CELL_HEALING_RATE, CELL_PHOTOSYNTHESISER_RATE,
    CELL_CONNECTION_DISTANCE, CELL_CONNECTION_FORCE, CELL_CONNECTION_DRAG, len_sq_spec, vec_len_spec, vec_len,
};
use crate::entity_container::{GRID_WIDTH, GRID_HEIGHT};
use crate::fixed::{
    UNIT, LIMIT, in_range, is_sqrt, lemma_sqrt_unique, add_spec, mul_spec, div_spec, min_spec, sqrt_spec, fx_add, fx_sub, fx_mul, fx_div, fx_min,
    fx_sqrt,
};

verus! {

/// Half a unit: the reach of the boundary force and of a cell's footprint.
pub const HALF: i64 = 500_000;

/// Largest coordinate a cell may take on an axis of `n` cells: just below the edge.
pub open spec fn max_coord(n: int) -> int {
    n * UNIT - 1
}

/// Tentative new coordinate: `p + v * dt`, clamped into `[0, n - epsilon]`.
pub open spec fn integrate_spec(p: int, v: int, dt: int, n: int) -> int {
    let q = add_spec(p, mul_spec(v, dt));
    if q < 0 {
        0
    } else if q > max_coord(n) {
        max_coord(n)
    } else {
        q
    }
}

pub fn integrate(p: i64, v: i64, dt: i64, n: usize) -> (r: i64)
    requires
        in_range(p as int),
        in_range(v as int),
        in_range(dt as int),
        n == GRID_WIDTH || n == GRID_HEIGHT,
    ensures
        r == integrate_spec(p as int, v as int, dt as int, n as int),
        0 <= r <= max_coord(n as int),
{
    let q = fx_add(p, fx_mul(v, dt));
    let top: i64 = (n as i64) * UNIT - 1;
    if q < 0 {
        0
    } else if q > top {
        top
    } else {
        q
    }
}

/// Velocity change from cubic drag: `-sign(v) * v^2 * DRAG * dt`.
pub open spec fn drag_spec(v: int, dt: int) -> int {
    let d = mul_spec(mul_spec(mul_spec(v, v), CELL_DRAG_COEF as int), dt);
    if v > 0 {
        -d
    } else if v < 0 {
        d
    } else {
        0
    }
}

pub fn drag(v: i64, dt: i64) -> (r: i64)
    requires
        in_range(v as int),
        in_range(dt as int),
    ensures
        r == drag_spec(v as int, dt as int),
        in_range(r as int),
{
    let d = fx_mul(fx_mul(fx_mul(v, v), CELL_DRAG_COEF), dt);
    if v > 0 {
        -d
    } else if v < 0 {
        d
    } else {
        0
    }
}

/// Magnitude of a soft repulsion at penetration depth `depth`: `sqrt(1 - depth) * FORCE * dt`
/// (zero once the depth reaches a full unit).
pub open spec fn repulsion_spec(depth: int, dt: int) -> int {
    let room = add_spec(UNIT as int, -depth);
    let s = if room <= 0 {
        0
    } else {
        sqrt_spec(room)
    };
    mul_spec(mul_spec(s, CELL_INTERSECTION_FORCE as int), dt)
}

pub fn repulsion(depth: i64, dt: i64) -> (r: i64)
    requires
        in_range(depth as int),
        in_range(dt as int),
    ensures
        r == repulsion_spec(depth as int, dt as int),
        in_range(r as int),
{
    let room = fx_sub(UNIT, depth);
    let s: i64 = if room <= 0 {
        0
    } else {
        fx_sqrt(room)
    };
    proof {
        if room <= 0 {
            assert(in_range(0));
        }
    }
    fx_mul(fx_mul(s, CELL_INTERSECTION_FORCE), dt)
}

/// Velocity change from the grid's edges on an axis of `n` cells: within half a unit
/// of an edge the cell is pushed back toward the interior.
pub open spec fn boundary_spec(p: int, dt: int, n: int) -> int {
    let low = if p < HALF {
        repulsion_spec(add_spec(HALF as int, -p), dt)
    } else {
        0
    };
    let high = if p > n * UNIT - HALF {
        repulsion_spec(add_spec(p, -(n * UNIT - HALF)), dt)
    } else {
        0
    };
    add_spec(low, -high)
}

pub fn boundary(p: i64, dt: i64, n: usize) -> (r: i64)
    requires
        in_range(p as int),
        in_range(dt as int),
        n == GRID_WIDTH || n == GRID_HEIGHT,
    ensures
        r == boundary_spec(p as int, dt as int, n as int),
        in_range(r as int),
{
    let edge: i64 = (n as i64) * UNIT - HALF;
    let low: i64 = if p < HALF {
        repulsion(fx_sub(HALF, p), dt)
    } else {
        0
    };
    let high: i64 = if p > edge {
        repulsion(fx_sub(p, edge), dt)
    } else {
        0
    };
    fx_sub(low, high)
}

/// Health regained by an active cell this tick (before scaling by `dt`): the missing
/// health, at most the healing rate.
pub open spec fn heal_spec(health: int) -> int {
    min_spec(add_spec(UNIT as int, -health), CELL_HEALING_RATE as int)
}

/// Amount a fat cell moves from its main energy store into its buffer this tick
/// (negative: released from the buffer). Zero while the energy lies between the
/// release and the store thresholds.
pub open spec fn fat_flow_spec(level: int, extra: int, store_threshold: int, release_threshold: int, store_rate: int, release_rate: int, dt: int) -> int {
    if level > store_threshold {
        mul_spec(min_spec(add_spec(level, -store_threshold), store_rate), dt)
    } else if level < release_threshold {
        -mul_spec(min_spec(extra, release_rate), dt)
    } else {
        0
    }
}

pub fn fat_flow(level: i64, extra: i64, store_threshold: i64, release_threshold: i64, store_rate: i64, release_rate: i64, dt: i64) -> (r: i64)
    requires
        in_range(level as int),
        in_range(extra as int),
        in_range(store_threshold as int),
        in_range(release_threshold as int),
        in_range(store_rate as int),
        in_range(release_rate as int),
        in_range(dt as int),
    ensures
        r == fat_flow_spec(level as int, extra as int, store_threshold as int, release_threshold as int, store_rate as int, release_rate as int, dt as int),
        in_range(r as int),
{
    if level > store_threshold {
        fx_mul(fx_min(fx_sub(level, store_threshold), store_rate), dt)
    } else if level < release_threshold {
        -fx_mul(fx_min(extra, release_rate), dt)
    } else {
        0
    }
}

/// Energy a photosynthesiser gains this tick: the missing energy up to 1.0, at most
/// the photosynthesis rate, scaled by `dt`.
pub open spec fn photosynthesis_spec(energy: int, dt: int) -> int {
    if energy >= UNIT {
        0
    } else {
        mul_spec(min_spec(add_spec(UNIT as int, -energy), CELL_PHOTOSYNTHESISER_RATE as int), dt)
    }
}

/// Amount a donor holding `give` pushes to a connected cell holding `take` this tick:
/// a fixed share of the difference, only when the donor exceeds the other by more than
/// `threshold`.
pub open spec fn transfer_spec(give: int, take: int, threshold: int, rate: int, dt: int) -> int {
    if give > add_spec(take, threshold) {
        mul_spec(mul_spec(add_spec(give, -take), rate), dt)
    } else {
        0
    }
}

pub fn transfer(give: i64, take: i64, threshold: i64, rate: i64, dt: i64) -> (r: i64)
    requires
        in_range(give as int),
        in_range(take as int),
        in_range(threshold as int),
        in_range(rate as int),
        in_range(dt as int),
    ensures
        r == transfer_spec(give as int, take as int, threshold as int, rate as int, dt as int),
        in_range(r as int),
{
    if give > fx_add(take, threshold) {
        fx_mul(fx_mul(fx_sub(give, take), rate), dt)
    } else {
        0
    }
}

/// Component of `v` along the line through the origin and `line`.
pub open spec fn project_spec(v: (int, int), line: (int, int)) -> (int, int) {
    let m = div_spec(add_spec(mul_spec(v.0, line.0), mul_spec(v.1, line.1)), len_sq_spec(line));
    (mul_spec(line.0, m), mul_spec(line.1, m))
}

pub fn move_point_to_line(input: (i64, i64), line: (i64, i64)) -> (r: (i64, i64))
    requires
        in_range(input.0 as int),
        in_range(input.1 as int),
        in_range(line.0 as int),
        in_range(line.1 as int),
    ensures
        (r.0 as int, r.1 as int) == project_spec((input.0 as int, input.1 as int), (line.0 as int, line.1 as int)),
        in_range(r.0 as int),
        in_range(r.1 as int),
{
    let squared_mag = fx_add(fx_mul(line.0, line.0), fx_mul(line.1, line.1));
    let input_dot_line = fx_add(fx_mul(input.0, line.0), fx_mul(input.1, line.1));
    let multiplier = fx_div(input_dot_line, squared_mag);
    (fx_mul(line.0, multiplier), fx_mul(line.1, multiplier))
}

/// Velocity change on a cell from the damped spring to a connected cell, given the
/// displacement `dp` to it and their relative velocity `dvr`: a restoring force
/// proportional to `REST - |dp|` along `dp`, and a damping force from the relative
/// velocity along `dp` only.
pub open spec fn spring_spec(dp: (int, int), dvr: (int, int), dt: int) -> (int, int) {
    let dv = project_spec(dvr, dp);
    let dp_len = vec_len_spec(dp);
    let dv_len = vec_len_spec(dv);
    let f = mul_spec(add_spec(CELL_CONNECTION_DISTANCE as int, -dp_len), CELL_CONNECTION_FORCE as int);
    let fx = add_spec(-mul_spec(dp.0, f), mul_spec(mul_spec(dv.0, dv_len), CELL_CONNECTION_DRAG as int));
    let fy = add_spec(-mul_spec(dp.1, f), mul_spec(mul_spec(dv.1, dv_len), CELL_CONNECTION_DRAG as int));
    (mul_spec(fx, dt), mul_spec(fy, dt))
}

pub fn spring(dp: (i64, i64), dvr: (i64, i64), dt: i64) -> (r: (i64, i64))
    requires
        in_range(dp.0 as int),
        in_range(dp.1 as int),
        in_range(dvr.0 as int),
        in_range(dvr.1 as int),
        in_range(dt as int),
    ensures
        (r.0 as int, r.1 as int) == spring_spec((dp.0 as int, dp.1 as int), (dvr.0 as int, dvr.1 as int), dt as int),
        in_range(r.0 as int),
        in_range(r.1 as int),
{
    let dv = move_point_to_line(dvr, dp);
    let dp_len = vec_len(dp);
    let dv_len = vec_len(dv);
    let f = fx_mul(fx_sub(CELL_CONNECTION_DISTANCE, dp_len), CELL_CONNECTION_FORCE);
    let fx = fx_add(-fx_mul(dp.0, f), fx_mul(fx_mul(dv.0, dv_len), CELL_CONNECTION_DRAG));
    let fy = fx_add(-fx_mul(dp.1, f), fx_mul(fx_mul(dv.1, dv_len), CELL_CONNECTION_DRAG));
    (fx_mul(fx, dt), fx_mul(fy, dt))
}

/// Velocity change on a cell from overlapping a cell at displacement `d`: none beyond
/// unit distance, otherwise `sqrt(1 - |d|) * FORCE * dt` away from the other cell
/// (scaled by `d`).
pub open spec fn collision_spec(d: (int, int), dt: int) -> (int, int) {
    let dist = vec_len_spec(d);
    if dist > UNIT {
        (0, 0)
    } else {
        let room = add_spec(UNIT as int, -dist);
        let f = mul_spec(sqrt_spec(room), CELL_INTERSECTION_FORCE as int);
        (-mul_spec(mul_spec(d.0, f), dt), -mul_spec(mul_spec(d.1, f), dt))
    }
}

pub fn collision(d: (i64, i64), dt: i64) -> (r: (i64, i64))
    requires
        in_range(d.0 as int),
        in_range(d.1 as int),
        in_range(dt as int),
    ensures
        (r.0 as int, r.1 as int) == collision_spec((d.0 as int, d.1 as int), dt as int),
        in_range(r.0 as int),
        in_range(r.1 as int),
{
    let dist = vec_len(d);
    if dist > UNIT {
        return (0, 0);
    }
    let room = fx_sub(UNIT, dist);
    let f = fx_mul(fx_sqrt(room), CELL_INTERSECTION_FORCE);
    (-fx_mul(fx_mul(d.0, f), dt), -fx_mul(fx_mul(d.1, f), dt))
}

/// A factor between zero and one scales a nonnegative quantity down.
proof fn lemma_mul_fraction(x: int, r: int)
    requires
        0 <= x <= LIMIT,
        0 <= r <= UNIT,
    ensures
        0 <= mul_spec(x, r) <= x,
{
    assert(0 <= x * r <= x * UNIT) by (nonlinear_arith)
        requires
            0 <= x,
            0 <= r <= UNIT,
    ;
    vstd::arithmetic::div_mod::lemma_div_is_ordered(x * r, x * UNIT, UNIT as int);
    vstd::arithmetic::div_mod::lemma_div_multiples_vanish(x, UNIT as int);
    vstd::arithmetic::div_mod::lemma_div_pos_is_pos(x * r, UNIT as int);
}

/// A factor of at most one half scales a nonnegative quantity to at most its half.
proof fn lemma_mul_half(x: int, r: int)
    requires
        0 <= x <= LIMIT,
        0 <= r <= UNIT / 2,
    ensures
        2 * mul_spec(x, r) <= x,
{
    lemma_mul_fraction(x, r);
    vstd::arithmetic::div_mod::lemma_fundamental_div_mod(x * r, UNIT as int);
    let q = (x * r) / (UNIT as int);
    assert(2 * q <= x) by (nonlinear_arith)
        requires
            x * r == UNIT * q + (x * r) % (UNIT as int),
            0 <= (x * r) % (UNIT as int),
            0 <= x,
            0 <= r <= UNIT / 2,
            UNIT == 1_000_000,
    ;
}

/// Conservation: with `0 <= dt <= 1` and a rate of at most one half, what a connection
/// transfer takes from the donor is exactly what the receiver gets, neither store
/// saturates, so the pair's total is unchanged; and the donor never ends below the
/// receiver.
pub proof fn lemma_transfer_conserves(give: int, take: int, threshold: int, rate: int, dt: int)
    requires
        in_range(give),
        in_range(take),
        0 <= threshold <= LIMIT,
        0 <= rate <= UNIT / 2,
        0 <= dt <= UNIT,
    ensures
        ({
            let a = transfer_spec(give, take, threshold, rate, dt);
            &&& 0 <= a
            &&& add_spec(give, -a) + add_spec(take, a) == give + take
            &&& add_spec(give, -a) >= add_spec(take, a) || a == 0
        }),
{
    if give > add_spec(take, threshold) {
        let d = add_spec(give, -take);
        assert(0 < d <= give - take);
        lemma_mul_fraction(d, rate);
        lemma_mul_half(d, rate);
        let m = mul_spec(d, rate);
        lemma_mul_fraction(m, dt);
    }
}

/// Hysteresis of a fat cell's buffer: while the stored level lies between the release
/// and the store thresholds nothing moves either way, so a level wandering inside that
/// band never toggles storing and releasing; above the band the buffer only fills, below
/// it only drains.
pub proof fn lemma_fat_hysteresis(level: int, extra: int, store_threshold: int, release_threshold: int, store_rate: int, release_rate: int, dt: int)
    requires
        0 <= extra <= LIMIT,
        0 <= store_rate <= LIMIT,
        0 <= release_rate <= LIMIT,
        0 <= dt <= UNIT,
    ensures
        release_threshold <= level <= store_threshold
            ==> fat_flow_spec(level, extra, store_threshold, release_threshold, store_rate, release_rate, dt) == 0,
        level > store_threshold ==> fat_flow_spec(level, extra, store_threshold, release_threshold, store_rate, release_rate, dt) >= 0,
        level < release_threshold && level <= store_threshold
            ==> fat_flow_spec(level, extra, store_threshold, release_threshold, store_rate, release_rate, dt) <= 0,
{
    if level > store_threshold {
        let m = min_spec(add_spec(level, -store_threshold), store_rate);
        lemma_mul_fraction(m, dt);
    } else if level < release_threshold {
        let m = min_spec(extra, release_rate);
        lemma_mul_fraction(m, dt);
    }
}

pub open spec fn is_int_sqrt(m: int, r: int) -> bool {
    0 <= r && r * r <= m && m < (r + 1) * (r + 1)
}

proof fn lemma_sqrt_exists(m: int)
    requires
        m >= 0,
    ensures
        exists|r: int| #[trigger] is_int_sqrt(m, r),
    decreases m,
{
    if m == 0 {
        assert(is_int_sqrt(m, 0));
    } else {
        lemma_sqrt_exists(m - 1);
        let r = choose|r: int| #[trigger] is_int_sqrt(m - 1, r);
        if (r + 1) * (r + 1) <= m {
            assert(m < (r + 2) * (r + 2)) by (nonlinear_arith)
                requires
                    m - 1 < (r + 1) * (r + 1),
                    r >= 0,
            ;
            assert(is_int_sqrt(m, r + 1));
        } else {
            assert(is_int_sqrt(m, r));
        }
    }
}

/// The fixed-point square root of a quantity of at least one half is at least 0.02.
proof fn lemma_sqrt_lower(a: int)
    requires
        HALF <= a <= LIMIT,
    ensures
        is_sqrt(a, sqrt_spec(a)),
        20_000 <= sqrt_spec(a) <= UNIT * 1_000_000,
{
    lemma_sqrt_exists(a * UNIT);
    let r = choose|r: int| #[trigger] is_int_sqrt(a * UNIT, r);
    assert(is_sqrt(a, r));
    lemma_sqrt_unique(a, r);
    if r < 20_000 {
        assert((r + 1) * (r + 1) <= 20_000 * 20_000) by (nonlinear_arith)
            requires
                0 <= r < 20_000,
        ;
    }
    if r > UNIT * 1_000_000 {
        assert(r * r > (UNIT * 1_000_000) * (UNIT * 1_000_000)) by (nonlinear_arith)
            requires
                r > UNIT * 1_000_000,
        ;
    }
}

/// A penetration depth of at most one half gives a strictly positive repulsion on
/// any tick of positive length.
proof fn lemma_repulsion_positive(depth: int, dt: int)
    requires
        0 <= depth <= HALF,
        1 <= dt <= LIMIT,
    ensures
        repulsion_spec(depth, dt) > 0,
{
    let room = add_spec(UNIT as int, -depth);
    assert(HALF <= room <= UNIT);
    lemma_sqrt_lower(room);
    let s = sqrt_spec(room);
    assert(s * s <= room * UNIT);
    assert(s <= UNIT) by (nonlinear_arith)
        requires
            s * s <= room * UNIT,
            room <= UNIT,
            s >= 0,
    ;
    assert(s * CELL_INTERSECTION_FORCE == (50 * s) * UNIT);
    vstd::arithmetic::div_mod::lemma_div_multiples_vanish(50 * s, UNIT as int);
    let f = mul_spec(s, CELL_INTERSECTION_FORCE as int);
    assert(f == 50 * s);
    assert(f * dt >= UNIT) by (nonlinear_arith)
        requires
            f >= 1_000_000,
            dt >= 1,
    ;
    vstd::arithmetic::div_mod::lemma_div_is_ordered(UNIT as int, f * dt, UNIT as int);
}

/// Confinement: a coordinate within half a unit of the low edge of the grid receives
/// a strictly positive velocity change, and one within half a unit of the high edge a
/// strictly negative one: both push the cell back toward the interior.
pub proof fn lemma_boundary_pushes_inward(p: int, dt: int, n: int)
    requires
        1 <= dt <= LIMIT,
        n == GRID_WIDTH || n == GRID_HEIGHT,
    ensures
        0 <= p < HALF ==> boundary_spec(p, dt, n) > 0,
        n * UNIT - HALF < p <= max_coord(n) ==> boundary_spec(p, dt, n) < 0,
{
    if 0 <= p < HALF {
        lemma_repulsion_positive(HALF - p, dt);
    }
    if n * UNIT - HALF < p <= max_coord(n) {
        lemma_repulsion_positive(p - (n * UNIT - HALF), dt);
    }
}

} // verus!

use vstd::prelude::*;
use crate::fixed::UNIT;

verus! {

pub const GRID_WIDTH: usize = 128;
pub const GRID_HEIGHT: usize = 128;
/// Largest number of live entities a container holds.
pub const MAX_ENTITIES_COUNT: usize = GRID_WIDTH * GRID_HEIGHT / 2;
/// Bound on the slot table (live and tombstoned slots together) that the reuse policy keeps.
pub const MAX_SLOTS: usize = 2 * MAX_ENTITIES_COUNT;

/// `(slot_index, generation)`.
pub type EntityID = (usize, u32);

/// Positional record shared by every kind of entity.
#[derive(Debug, Clone, Copy, PartialEq, Eq, Structural)]
pub struct RawEntity {
    pub should_be_removed: bool,
    pub x: i64,
    pub y: i64,
    pub width: i64,
    pub height: i64,
    pub current_grid_x: usize,
    pub current_grid_y: usize,
}

/// Grid column (or row) of coordinate `v` on an axis of `n` cells: `floor(v)`,
/// clamped into `[0, n - 1]`.
pub open spec fn grid_coord(v: int, n: int) -> int {
    if v < 0 {
        0
    } else if v / (UNIT as int) >= n {
        n - 1
    } else {
        v / (UNIT as int)
    }
}

pub open spec fn bucket_index(gx: int, gy: int) -> int {
    gx + gy * GRID_WIDTH
}

/// How many steps forward, wrapping at `n`, it takes to go from `c` to `j`.
pub open spec fn cyc_dist(c: int, j: int, n: int) -> int {
    if j >= c {
        j - c
    } else {
        j + n - c
    }
}

pub open spec fn wrap_inc(g: u32) -> u32 {
    if g == u32::MAX {
        0
    } else {
        (g + 1) as u32
    }
}

pub fn grid_coord_exec(v: i64, n: usize) -> (r: usize)
    requires
        1 <= n <= GRID_WIDTH,
    ensures
        r == grid_coord(v as int, n as int),
        r < n,
{
    if v < 0 {
        0
    } else if v / UNIT >= n as i64 {
        n - 1
    } else {
        (v / UNIT) as usize
    }
}

impl RawEntity {
    pub open spec fn new_spec(x: i64, y: i64, width: i64, height: i64) -> RawEntity {
        RawEntity {
            should_be_removed: false,
            x,
            y,
            width,
            height,
            current_grid_x: grid_coord(x as int, GRID_WIDTH as int) as usize,
            current_grid_y: grid_coord(y as int, GRID_HEIGHT as int) as usize,
        }
    }

    pub fn new(x: i64, y: i64, width: i64, height: i64) -> (r: Self)
        ensures
            r == RawEntity::new_spec(x, y, width, height),
    {
        RawEntity {
            should_be_removed: false,
            x,
            y,
            width,
            height,
            current_grid_x: grid_coord_exec(x, GRID_WIDTH),
            current_grid_y: grid_coord_exec(y, GRID_HEIGHT),
        }
    }

    /// Grid column that the live position falls in.
    pub open spec fn grid_x(self) -> int {
        grid_coord(self.x as int, GRID_WIDTH as int)
    }

    pub open spec fn grid_y(self) -> int {
        grid_coord(self.y as int, GRID_HEIGHT as int)
    }

    /// The cached bucket coordinates match the live position.
    pub open spec fn is_synced(self) -> bool {
        self.current_grid_x == self.grid_x() && self.current_grid_y == self.grid_y()
    }

    /// The record with its cached bucket coordinates brought up to date.
    pub open spec fn synced(self) -> RawEntity {
        RawEntity {
            current_grid_x: self.grid_x() as usize,
            current_grid_y: self.grid_y() as usize,
            ..self
        }
    }
}

/// A stored entity: its positional record and its kind-specific data.
pub struct Entry<T> {
    pub raw: RawEntity,
    pub data: T,
}

pub struct EntityContainer<T> {
    pub master_list: Vec<(Option<Entry<T>>, u32)>,
    pub current_index: usize,
    pub empty_slots: u32,
    /// One bucket of ids per grid cell, row-major.
    pub entities_by_pos: Vec<Vec<EntityID>>,
}

pub open spec fn count_empty<T>(s: Seq<(Option<Entry<T>>, u32)>) -> nat
    decreases s.len(),
{
    if s.len() == 0 {
        0
    } else {
        count_empty(s.drop_last()) + if s.last().0 is None {
            1nat
        } else {
            0nat
        }
    }
}

proof fn lemma_count_empty_bound<T>(s: Seq<(Option<Entry<T>>, u32)>)
    ensures
        count_empty(s) <= s.len(),
        count_empty(s) > 0 ==> exists|i: int| 0 <= i < s.len() && (#[trigger] s[i]).0 is None,
    decreases s.len(),
{
    if s.len() > 0 {
        lemma_count_empty_bound(s.drop_last());
        if count_empty(s.drop_last()) > 0 {
            let i = choose|i: int| 0 <= i < s.drop_last().len() && (#[trigger] s.drop_last()[i]).0 is None;
            assert(s[i] == s.drop_last()[i]);
        }
    }
}

proof fn lemma_count_empty_update<T>(s: Seq<(Option<Entry<T>>, u32)>, i: int, v: (Option<Entry<T>>, u32))
    requires
        0 <= i < s.len(),
    ensures
        count_empty(s.update(i, v)) + (if s[i].0 is None { 1int } else { 0int })
            == count_empty(s) + (if v.0 is None { 1int } else { 0int }),
    decreases s.len(),
{
    let t = s.update(i, v);
    if i == s.len() - 1 {
        assert(t.drop_last() =~= s.drop_last());
    } else {
        lemma_count_empty_update(s.drop_last(), i, v);
        assert(t.drop_last() =~= s.drop_last().update(i, v));
    }
}

proof fn lemma_count_empty_push<T>(s: Seq<(Option<Entry<T>>, u32)>, v: (Option<Entry<T>>, u32))
    ensures
        count_empty(s.push(v)) == count_empty(s) + (if v.0 is None { 1nat } else { 0nat }),
{
    assert(s.push(v).drop_last() =~= s);
}

/// Position of `id` in `ids`, if present.
pub fn position_of(ids: &Vec<EntityID>, id: EntityID) -> (r: Option<usize>)
    ensures
        r matches Some(k) ==> k < ids@.len() && ids@[k as int] == id,
        r is None ==> !ids@.contains(id),
{
    let mut k: usize = 0;
    while k < ids.len()
        invariant
            k <= ids@.len(),
            forall|j: int| 0 <= j < k ==> ids@[j] != id,
        decreases ids@.len() - k,
    {
        if ids[k].0 == id.0 && ids[k].1 == id.1 {
            return Some(k);
        }
        k = k + 1;
    }
    None
}

/// Taking slot `i`'s id out of its bucket leaves no occurrence of it anywhere, and
/// every remaining occurrence is one that was there before.
proof fn lemma_unfiled<T>(pre: EntityContainer<T>, post: EntityContainer<T>, i: int, ob: int, k: int)
    requires
        pre.wf(),
        pre.live(i),
        ob == pre.home(i),
        0 <= k < pre.bucket(ob).len(),
        pre.bucket(ob)[k] == (i as usize, pre.generation(i)),
        post.master_list == pre.master_list,
        post.current_index == pre.current_index,
        post.empty_slots == pre.empty_slots,
        post.entities_by_pos@.len() == pre.entities_by_pos@.len(),
        post.bucket(ob) == pre.bucket(ob).remove(k),
        forall|b: int| 0 <= b < GRID_WIDTH * GRID_HEIGHT && b != ob ==> #[trigger] post.bucket(b) == pre.bucket(b),
    ensures
        forall|b: int, j: int|
            0 <= b < GRID_WIDTH * GRID_HEIGHT && 0 <= j < post.bucket(b).len() ==> {
                let x = #[trigger] post.bucket(b)[j];
                pre.id_valid_spec(x) && pre.home(x.0 as int) == b && x.0 != i
            },
        forall|b: int| 0 <= b < GRID_WIDTH * GRID_HEIGHT ==> #[trigger] post.bucket(b).no_duplicates(),
        forall|j: int| #[trigger] pre.live(j) && j != i ==> post.bucket(pre.home(j)).contains((j as usize, pre.generation(j))),
{
    assert forall|b: int, j: int|
        0 <= b < GRID_WIDTH * GRID_HEIGHT && 0 <= j < post.bucket(b).len() implies {
            let x = #[trigger] post.bucket(b)[j];
            pre.id_valid_spec(x) && pre.home(x.0 as int) == b && x.0 != i
        } by {
        let x = post.bucket(b)[j];
        if b == ob {
            let jj = if j < k { j } else { j + 1 };
            assert(x == pre.bucket(ob)[jj]);
            assert(pre.bucket(ob).no_duplicates());
            assert(jj != k);
        } else {
            assert(x == pre.bucket(b)[j]);
            if x.0 == i {
                assert(pre.home(i) == b);
            }
        }
    }
    assert forall|b: int| 0 <= b < GRID_WIDTH * GRID_HEIGHT implies #[trigger] post.bucket(b).no_duplicates() by {
        assert(pre.bucket(b).no_duplicates());
        if b == ob {
            assert forall|p: int, q: int| 0 <= p < post.bucket(b).len() && 0 <= q < post.bucket(b).len() && p != q
                implies post.bucket(b)[p] != post.bucket(b)[q] by {
                let pp = if p < k { p } else { p + 1 };
                let qq = if q < k { q } else { q + 1 };
                assert(post.bucket(b)[p] == pre.bucket(b)[pp]);
                assert(post.bucket(b)[q] == pre.bucket(b)[qq]);
            }
        }
    }
    assert forall|j: int| #[trigger] pre.live(j) && j != i implies post.bucket(pre.home(j)).contains((j as usize, pre.generation(j))) by {
        let hb = pre.home(j);
        let id = (j as usize, pre.generation(j));
        let p = choose|p: int| 0 <= p < pre.bucket(hb).len() && pre.bucket(hb)[p] == id;
        if hb == ob {
            assert(p != k);
            let pp = if p < k { p } else { p - 1 };
            assert(post.bucket(hb)[pp] == id);
        } else {
            assert(post.bucket(hb)[p] == id);
        }
    }
}

proof fn lemma_tombstoned_wf<T>(pre: EntityContainer<T>, removed: EntityContainer<T>, post: EntityContainer<T>, i: int, ob: int)
    requires
        pre.wf(),
        pre.live(i),
        ob == pre.home(i),
        removed.master_list == pre.master_list,
        removed.current_index == pre.current_index,
        post.entities_by_pos == removed.entities_by_pos,
        post.current_index == pre.current_index,
        post.master_list@ == pre.master_list@.update(i, (None, pre.generation(i))),
        post.empty_slots == count_empty(post.master_list@),
        removed.entities_by_pos@.len() == pre.entities_by_pos@.len(),
        forall|b: int, j: int|
            0 <= b < GRID_WIDTH * GRID_HEIGHT && 0 <= j < removed.bucket(b).len() ==> {
                let x = #[trigger] removed.bucket(b)[j];
                pre.id_valid_spec(x) && pre.home(x.0 as int) == b && x.0 != i
            },
        forall|b: int| 0 <= b < GRID_WIDTH * GRID_HEIGHT ==> #[trigger] removed.bucket(b).no_duplicates(),
        forall|j: int| #[trigger] pre.live(j) && j != i ==> removed.bucket(pre.home(j)).contains((j as usize, pre.generation(j))),
    ensures
        post.wf(),
{
    assert forall|j: int| #[trigger] post.live(j) implies post.raw_of(j).current_grid_x < GRID_WIDTH
        && post.raw_of(j).current_grid_y < GRID_HEIGHT
        && post.bucket(post.home(j)).contains((j as usize, post.generation(j))) by {
        assert(j != i);
        assert(pre.live(j));
        assert(post.master_list@[j] == pre.master_list@[j]);
        assert(post.bucket(pre.home(j)) == removed.bucket(pre.home(j)));
    }
    assert forall|b: int, j: int|
        0 <= b < GRID_WIDTH * GRID_HEIGHT && 0 <= j < post.bucket(b).len() implies {
            let x = #[trigger] post.bucket(b)[j];
            post.id_valid_spec(x) && post.home(x.0 as int) == b
        } by {
        assert(post.bucket(b) == removed.bucket(b));
        let x = removed.bucket(b)[j];
        assert(post.master_list@[x.0 as int] == pre.master_list@[x.0 as int]);
    }
    assert forall|b: int| 0 <= b < GRID_WIDTH * GRID_HEIGHT implies #[trigger] post.bucket(b).no_duplicates() by {
        assert(post.bucket(b) == removed.bucket(b));
    }
}

proof fn lemma_refiled_wf<T>(
    pre: EntityContainer<T>,
    removed: EntityContainer<T>,
    moved: EntityContainer<T>,
    post: EntityContainer<T>,
    i: int,
    ob: int,
    nb: int,
)
    requires
        pre.wf(),
        pre.live(i),
        ob == pre.home(i),
        removed.master_list == pre.master_list,
        removed.current_index == pre.current_index,
        removed.empty_slots == pre.empty_slots,
        removed.entities_by_pos@.len() == pre.entities_by_pos@.len(),
        moved.entities_by_pos == removed.entities_by_pos,
        moved.current_index == pre.current_index,
        moved.empty_slots == pre.empty_slots,
        moved.master_list@.len() == pre.master_list@.len(),
        forall|j: int| 0 <= j < pre.master_list@.len() && j != i ==> #[trigger] moved.master_list@[j] == pre.master_list@[j],
        moved.master_list@[i] == (Some(Entry { raw: moved.raw_of(i), data: pre.entry(i).data }), pre.generation(i)),
        moved.raw_of(i) == (RawEntity { current_grid_x: moved.raw_of(i).current_grid_x, current_grid_y: moved.raw_of(i).current_grid_y, ..pre.raw_of(i) }),
        moved.raw_of(i).current_grid_x < GRID_WIDTH,
        moved.raw_of(i).current_grid_y < GRID_HEIGHT,
        nb == moved.home(i),
        post.master_list == moved.master_list,
        post.current_index == moved.current_index,
        post.empty_slots == moved.empty_slots,
        post.entities_by_pos@.len() == moved.entities_by_pos@.len(),
        post.bucket(nb) == moved.bucket(nb).push((i as usize, pre.generation(i))),
        forall|b: int| 0 <= b < GRID_WIDTH * GRID_HEIGHT && b != nb ==> #[trigger] post.bucket(b) == moved.bucket(b),
        forall|b: int, j: int|
            0 <= b < GRID_WIDTH * GRID_HEIGHT && 0 <= j < removed.bucket(b).len() ==> {
                let x = #[trigger] removed.bucket(b)[j];
                pre.id_valid_spec(x) && pre.home(x.0 as int) == b && x.0 != i
            },
        forall|b: int| 0 <= b < GRID_WIDTH * GRID_HEIGHT ==> #[trigger] removed.bucket(b).no_duplicates(),
        forall|j: int| #[trigger] pre.live(j) && j != i ==> removed.bucket(pre.home(j)).contains((j as usize, pre.generation(j))),
    ensures
        post.wf(),
        post.master_list@.len() == pre.master_list@.len(),
{
    let id = (i as usize, pre.generation(i));
    assert(post.master_list@.len() == pre.master_list@.len());
    assert(count_empty(post.master_list@) == count_empty(pre.master_list@)) by {
        assert(post.master_list@ =~= pre.master_list@.update(i, post.master_list@[i]));
        lemma_count_empty_update(pre.master_list@, i, post.master_list@[i]);
    }
    assert forall|j: int| #[trigger] post.live(j) implies post.raw_of(j).current_grid_x < GRID_WIDTH
        && post.raw_of(j).current_grid_y < GRID_HEIGHT
        && post.bucket(post.home(j)).contains((j as usize, post.generation(j))) by {
        if j == i {
            assert(post.bucket(nb)[post.bucket(nb).len() - 1] == id);
        } else {
            assert(pre.live(j));
            assert(post.master_list@[j] == pre.master_list@[j]);
            let hb = pre.home(j);
            let jid = (j as usize, pre.generation(j));
            let p = choose|p: int| 0 <= p < removed.bucket(hb).len() && removed.bucket(hb)[p] == jid;
            assert(post.bucket(hb)[p] == jid);
        }
    }
    assert forall|b: int, j: int|
        0 <= b < GRID_WIDTH * GRID_HEIGHT && 0 <= j < post.bucket(b).len() implies {
            let x = #[trigger] post.bucket(b)[j];
            post.id_valid_spec(x) && post.home(x.0 as int) == b
        } by {
        let x = post.bucket(b)[j];
        if b == nb && j == post.bucket(b).len() - 1 {
            assert(x == id);
        } else {
            assert(x == removed.bucket(b)[j]);
            assert(post.master_list@[x.0 as int] == pre.master_list@[x.0 as int]);
        }
    }
    assert forall|b: int| 0 <= b < GRID_WIDTH * GRID_HEIGHT implies #[trigger] post.bucket(b).no_duplicates() by {
        assert(removed.bucket(b).no_duplicates());
        if b == nb {
            assert forall|p: int| 0 <= p < removed.bucket(b).len() implies removed.bucket(b)[p] != id by {
                let x = removed.bucket(b)[p];
                assert(x.0 != i);
            }
            assert forall|p: int, q: int| 0 <= p < post.bucket(b).len() && 0 <= q < post.bucket(b).len() && p != q
                implies post.bucket(b)[p] != post.bucket(b)[q] by {
                if p < removed.bucket(b).len() && q < removed.bucket(b).len() {
                    assert(post.bucket(b)[p] == removed.bucket(b)[p]);
                    assert(post.bucket(b)[q] == removed.bucket(b)[q]);
                } else if p < removed.bucket(b).len() {
                    assert(post.bucket(b)[p] == removed.bucket(b)[p]);
                } else {
                    assert(post.bucket(b)[q] == removed.bucket(b)[q]);
                }
            }
        }
    }
}

impl<T> EntityContainer<T> {
    pub open spec fn slot_count(self) -> int {
        self.master_list@.len() as int
    }

    pub open spec fn live(self, i: int) -> bool {
        0 <= i < self.master_list@.len() && self.master_list@[i].0 is Some
    }

    pub open spec fn generation(self, i: int) -> u32 {
        self.master_list@[i].1
    }

    pub open spec fn entry(self, i: int) -> Entry<T> {
        self.master_list@[i].0.unwrap()
    }

    pub open spec fn raw_of(self, i: int) -> RawEntity {
        self.entry(i).raw
    }

    /// Bucket that slot `i` is filed under, by its cached coordinates.
    pub open spec fn home(self, i: int) -> int {
        bucket_index(self.raw_of(i).current_grid_x as int, self.raw_of(i).current_grid_y as int)
    }

    pub open spec fn bucket(self, b: int) -> Seq<EntityID> {
        self.entities_by_pos@[b]@
    }

    pub open spec fn id_valid_spec(self, id: EntityID) -> bool {
        self.live(id.0 as int) && self.generation(id.0 as int) == id.1
    }

    /// What `id` resolves to.
    pub open spec fn lookup(self, id: EntityID) -> Option<Entry<T>> {
        if self.id_valid_spec(id) {
            Some(self.entry(id.0 as int))
        } else {
            None
        }
    }

    pub open spec fn live_count(self) -> int {
        self.slot_count() - count_empty(self.master_list@)
    }

    /// Every live entity's cached coordinates match its live position.
    pub open spec fn all_synced(self) -> bool {
        forall|i: int| #[trigger] self.live(i) ==> self.raw_of(i).is_synced()
    }

    pub open spec fn wf(self) -> bool {
        &&& self.entities_by_pos@.len() == GRID_WIDTH * GRID_HEIGHT
        &&& self.master_list@.len() <= MAX_SLOTS
        &&& self.empty_slots == count_empty(self.master_list@)
        &&& (self.current_index == 0 || self.current_index < self.master_list@.len())
        &&& forall|i: int| #[trigger]
            self.live(i) ==> self.raw_of(i).current_grid_x < GRID_WIDTH
                && self.raw_of(i).current_grid_y < GRID_HEIGHT
                && self.bucket(self.home(i)).contains((i as usize, self.generation(i)))
        &&& forall|b: int, k: int|
            0 <= b < GRID_WIDTH * GRID_HEIGHT && 0 <= k < self.bucket(b).len() ==> {
                let id = #[trigger] self.bucket(b)[k];
                self.id_valid_spec(id) && self.home(id.0 as int) == b
            }
        &&& forall|b: int| 0 <= b < GRID_WIDTH * GRID_HEIGHT ==> #[trigger] self.bucket(b).no_duplicates()
    }

    /// What `add` leaves behind, given the container before, the entry and the result.
    pub open spec fn add_post(old: Self, entity: Entry<T>, r: Option<EntityID>, new: Self) -> bool {
        &&& new.wf()
        &&& (r is None <==> old.live_count() >= MAX_ENTITIES_COUNT)
        &&& (r is None ==> new == old)
        &&& (r matches Some(id) ==> {
            &&& !old.live(id.0 as int)
            &&& id.0 <= old.slot_count()
            &&& id.1 == if id.0 < old.slot_count() { wrap_inc(old.generation(id.0 as int)) } else { 0 }
            &&& new.slot_count() == if id.0 < old.slot_count() { old.slot_count() } else { old.slot_count() + 1 }
            &&& new.id_valid_spec(id)
            &&& new.entry(id.0 as int) == (Entry { raw: entity.raw.synced(), data: entity.data })
            &&& forall|j: int| 0 <= j < old.slot_count() && j != id.0 ==> #[trigger] new.master_list@[j] == old.master_list@[j]
            &&& new.entities_by_pos@.len() == old.entities_by_pos@.len()
            &&& new.bucket(bucket_index(entity.raw.grid_x(), entity.raw.grid_y()))
                == old.bucket(bucket_index(entity.raw.grid_x(), entity.raw.grid_y())).push(id)
            &&& forall|b: int| 0 <= b < GRID_WIDTH * GRID_HEIGHT && b != bucket_index(entity.raw.grid_x(), entity.raw.grid_y())
                ==> #[trigger] new.bucket(b) == old.bucket(b)
            &&& if old.slot_count() > 0 && 20 * old.empty_slots >= old.slot_count() {
                &&& id.0 < old.slot_count()
                &&& forall|j: int| 0 <= j < old.slot_count() && cyc_dist(old.current_index as int, j, old.slot_count())
                    < cyc_dist(old.current_index as int, id.0 as int, old.slot_count()) ==> #[trigger] old.live(j)
                &&& new.current_index == id.0
                &&& new.empty_slots == old.empty_slots - 1
            } else {
                &&& id == (old.slot_count() as usize, 0u32)
                &&& new.current_index == old.current_index
                &&& new.empty_slots == old.empty_slots
            }
        })
    }

    /// A slot after synchronisation: flagged entities are tombstoned (generation kept),
    /// the others have their cached bucket coordinates brought up to date.
    pub open spec fn synced_slot(s: (Option<Entry<T>>, u32)) -> (Option<Entry<T>>, u32) {
        match s.0 {
            None => s,
            Some(e) => if e.raw.should_be_removed {
                (None, s.1)
            } else {
                (Some(Entry { raw: e.raw.synced(), data: e.data }), s.1)
            },
        }
    }

    /// Nothing to synchronise: no live entity is flagged or has left its cell.
    pub open spec fn quiet(self) -> bool {
        forall|i: int| #[trigger] self.live(i) ==> self.raw_of(i).is_synced() && !self.raw_of(i).should_be_removed
    }

    /// What `sync_fields` leaves behind. Only entities that are flagged or have crossed a
    /// cell boundary are touched, so a container with nothing to synchronise is left as it is.
    pub open spec fn sync_post(old: Self, new: Self) -> bool {
        &&& new.wf()
        &&& new.all_synced()
        &&& new.current_index == old.current_index
        &&& (old.quiet() ==> new == old)
        &&& new.slot_count() == old.slot_count()
        &&& forall|i: int| 0 <= i < old.slot_count() ==> #[trigger] new.master_list@[i] == Self::synced_slot(old.master_list@[i])
    }

    pub fn new() -> (r: Self)
        ensures
            r.wf(),
            r.slot_count() == 0,
    {
        let mut grid: Vec<Vec<EntityID>> = Vec::new();
        let mut i: usize = 0;
        while i < GRID_WIDTH * GRID_HEIGHT
            invariant
                i <= GRID_WIDTH * GRID_HEIGHT,
                grid@.len() == i,
                forall|b: int| 0 <= b < i ==> (#[trigger] grid@[b])@.len() == 0,
            decreases GRID_WIDTH * GRID_HEIGHT - i,
        {
            grid.push(Vec::new());
            i = i + 1;
        }
        let r = EntityContainer { master_list: Vec::new(), current_index: 0, empty_slots: 0, entities_by_pos: grid };
        assert forall|b: int| 0 <= b < GRID_WIDTH * GRID_HEIGHT implies #[trigger] r.bucket(b).no_duplicates() by {
            assert(r.bucket(b).len() == 0);
        }
        r
    }

    pub fn id_is_valid(&self, id: EntityID) -> (r: bool)
        ensures
            r == self.id_valid_spec(id),
    {
        if id.0 >= self.master_list.len() {
            return false;
        }
        let slot = &self.master_list[id.0];
        slot.0.is_some() && slot.1 == id.1
    }

    pub fn get(&self, id: EntityID) -> (r: Option<&Entry<T>>)
        ensures
            r is Some <==> self.id_valid_spec(id),
            r matches Some(e) ==> *e == self.entry(id.0 as int),
    {
        if id.0 >= self.master_list.len() {
            return None;
        }
        let slot = &self.master_list[id.0];
        match &slot.0 {
            Some(e) => {
                if slot.1 == id.1 {
                    Some(e)
                } else {
                    None
                }
            },
            None => None,
        }
    }

    /// Generation-checked access to an entity's kind-specific data for changing it; its
    /// positional record stays out of reach, so the bucket index cannot be disturbed.
    pub fn get_mut(&mut self, id: EntityID) -> (r: Option<&mut T>)
        requires
            old(self).wf(),
        ensures
            final(self).wf(),
            r is Some <==> old(self).id_valid_spec(id),
            r is None ==> *final(self) == *old(self),
            r matches Some(d) ==> {
                &&& *d == old(self).entry(id.0 as int).data
                &&& final(self).master_list@ == old(self).master_list@.update(
                    id.0 as int,
                    (Some(Entry { raw: old(self).raw_of(id.0 as int), data: *final(d) }), id.1),
                )
                &&& final(self).entities_by_pos == old(self).entities_by_pos
                &&& final(self).current_index == old(self).current_index
                &&& final(self).empty_slots == old(self).empty_slots
            },
    {
        if !self.id_is_valid(id) {
            return None;
        }
        let ghost pre = *self;
        let r = match &mut self.master_list[id.0].0 {
            Some(e) => Some(&mut e.data),
            None => None,
        };
        proof {
            lemma_same_layout_wf(pre, after_borrow(*self));
        }
        r
    }

    /// Stores `entity`, filing it under the bucket of its position. Fails when the
    /// container already holds `MAX_ENTITIES_COUNT` live entities. Once at least one
    /// slot in twenty is tombstoned, the next tombstoned slot from a rotating cursor
    /// is reused, with its generation advanced; otherwise a slot is appended.
    pub fn add_entity(&mut self, entity: Entry<T>) -> (r: Option<EntityID>)
        requires
            old(self).wf(),
        ensures
            Self::add_post(*old(self), entity, r, *final(self)),
    {
        let len = self.master_list.len();
        proof {
            lemma_count_empty_bound(self.master_list@);
        }
        if len - (self.empty_slots as usize) >= MAX_ENTITIES_COUNT {
            return None;
        }
        let mut entity = entity;
        entity.raw.current_grid_x = grid_coord_exec(entity.raw.x, GRID_WIDTH);
        entity.raw.current_grid_y = grid_coord_exec(entity.raw.y, GRID_HEIGHT);
        let b: usize = entity.raw.current_grid_x + entity.raw.current_grid_y * GRID_WIDTH;
        let ghost e = entity;
        let ghost pre = *self;
        let id: EntityID;
        if len > 0 && 20 * (self.empty_slots as usize) >= len {
            let ghost t = choose|t: int| 0 <= t < len && (#[trigger] self.master_list@[t]).0 is None;
            let ghost c = pre.current_index as int;
            while self.master_list[self.current_index].0.is_some()
                invariant
                    *self == (EntityContainer { current_index: self.current_index, ..pre }),
                    0 <= t < len,
                    len == self.master_list@.len(),
                    self.master_list@[t].0 is None,
                    self.current_index < len,
                    0 <= c < len,
                    cyc_dist(c, self.current_index as int, len as int) <= cyc_dist(c, t, len as int),
                    forall|j: int| 0 <= j < len && cyc_dist(c, j, len as int) < cyc_dist(c, self.current_index as int, len as int)
                        ==> #[trigger] pre.live(j),
                decreases (if t >= self.current_index { t - self.current_index } else { t + len - self.current_index }),
            {
                assert(self.current_index != t);
                proof {
                    let nxt = self.current_index as int + 1;
                    if nxt < len {
                        vstd::arithmetic::div_mod::lemma_small_mod(nxt as nat, len as nat);
                    } else {
                        vstd::arithmetic::div_mod::lemma_mod_self_0(len as int);
                    }
                }
                self.current_index = (self.current_index + 1) % len;
            }
            let ci = self.current_index;
            let gen = self.master_list[ci].1.wrapping_add(1);
            id = (ci, gen);
            proof {
                lemma_count_empty_update(self.master_list@, ci as int, (Some(e), gen));
            }
            self.master_list.set(ci, (Some(entity), gen));
            self.empty_slots = self.empty_slots - 1;
        } else {
            id = (len, 0);
            proof {
                lemma_count_empty_push(self.master_list@, (Some(e), 0u32));
            }
            self.master_list.push((Some(entity), 0));
        }
        let ghost mid = *self;
        proof {
            assert(!mid.bucket(b as int).contains(id)) by {
                if mid.bucket(b as int).contains(id) {
                    let k = choose|k: int| 0 <= k < mid.bucket(b as int).len() && mid.bucket(b as int)[k] == id;
                    assert(pre.bucket(b as int)[k] == id);
                }
            }
        }
        self.entities_by_pos[b].push(id);
        proof {
            assert(self.bucket(b as int) == mid.bucket(b as int).push(id));
            assert forall|bb: int| 0 <= bb < GRID_WIDTH * GRID_HEIGHT && bb != b implies #[trigger] self.bucket(bb) == pre.bucket(bb) by {}
            assert forall|i: int| #[trigger] self.live(i) implies self.raw_of(i).current_grid_x < GRID_WIDTH
                && self.raw_of(i).current_grid_y < GRID_HEIGHT
                && self.bucket(self.home(i)).contains((i as usize, self.generation(i))) by {
                if i != id.0 {
                    assert(pre.live(i));
                    assert(self.master_list@[i] == pre.master_list@[i]);
                    let hb = self.home(i);
                    let k = choose|k: int| 0 <= k < pre.bucket(hb).len() && pre.bucket(hb)[k] == (i as usize, self.generation(i));
                    if hb == b {
                        assert(self.bucket(hb)[k] == (i as usize, self.generation(i)));
                    }
                } else {
                    assert(self.bucket(b as int)[self.bucket(b as int).len() - 1] == id);
                }
            }
            assert forall|bb: int, k: int|
                0 <= bb < GRID_WIDTH * GRID_HEIGHT && 0 <= k < self.bucket(bb).len() implies {
                    let x = #[trigger] self.bucket(bb)[k];
                    self.id_valid_spec(x) && self.home(x.0 as int) == bb
                } by {
                let x = self.bucket(bb)[k];
                if bb != b || k < pre.bucket(bb).len() {
                    assert(x == pre.bucket(bb)[k]);
                    assert(pre.id_valid_spec(x));
                    assert(x.0 != id.0);
                    assert(self.master_list@[x.0 as int] == pre.master_list@[x.0 as int]);
                }
            }
            assert forall|bb: int| 0 <= bb < GRID_WIDTH * GRID_HEIGHT implies #[trigger] self.bucket(bb).no_duplicates() by {
                if bb == b {
                    assert(pre.bucket(bb).no_duplicates());
                }
            }
        }
        Some(id)
    }

    /// Removes every entity flagged for removal (its id leaves its bucket, its slot is
    /// tombstoned) and moves every other entity whose position crossed a cell boundary
    /// to the bucket of its new cell.
    pub fn sync_fields(&mut self)
        requires
            old(self).wf(),
        ensures
            Self::sync_post(*old(self), *final(self)),
    {
        let ghost start = *self;
        let len = self.master_list.len();
        let mut i: usize = 0;
        while i < len
            invariant
                self.wf(),
                len == self.master_list@.len(),
                len == start.master_list@.len(),
                i <= len,
                forall|j: int| 0 <= j < i ==> #[trigger] self.master_list@[j] == Self::synced_slot(start.master_list@[j]),
                forall|j: int| i <= j < len ==> #[trigger] self.master_list@[j] == start.master_list@[j],
                forall|j: int| 0 <= j < i && #[trigger] self.live(j) ==> self.raw_of(j).is_synced(),
                self.current_index == start.current_index,
                Self::quiet(start) ==> *self == start,
            decreases len - i,
        {
            let gen = self.master_list[i].1;
            let slot_raw: Option<RawEntity> = match &self.master_list[i].0 {
                Some(e) => Some(e.raw),
                None => None,
            };
            let moves = match slot_raw {
                Some(raw) => raw.should_be_removed || grid_coord_exec(raw.x, GRID_WIDTH) != raw.current_grid_x
                    || grid_coord_exec(raw.y, GRID_HEIGHT) != raw.current_grid_y,
                None => false,
            };
            proof {
                if !moves && slot_raw is Some {
                    let e = start.master_list@[i as int].0.unwrap();
                    assert(Entry { raw: e.raw.synced(), data: e.data } == e);
                }
            }
            if moves {
                let raw = slot_raw.unwrap();
                let id: EntityID = (i, gen);
                let ghost pre = *self;
                assert(pre.live(i as int));
                assert(raw == pre.raw_of(i as int));
                assert(!Self::quiet(start));
                let ob: usize = raw.current_grid_x + raw.current_grid_y * GRID_WIDTH;
                assert(pre.home(i as int) == ob);
                let k = position_of(&self.entities_by_pos[ob], id).unwrap();
                self.entities_by_pos[ob].remove(k);
                let ghost removed = *self;
                proof {
                    lemma_unfiled(pre, removed, i as int, ob as int, k as int);
                }
                if raw.should_be_removed {
                    proof {
                        lemma_count_empty_update(self.master_list@, i as int, (None, gen));
                        lemma_count_empty_bound(self.master_list@);
                    }
                    self.master_list.set(i, (None, gen));
                    self.empty_slots = self.empty_slots + 1;
                    proof {
                        lemma_tombstoned_wf(pre, removed, *self, i as int, ob as int);
                    }
                } else {
                    let nx = grid_coord_exec(raw.x, GRID_WIDTH);
                    let ny = grid_coord_exec(raw.y, GRID_HEIGHT);
                    let nb: usize = nx + ny * GRID_WIDTH;
                    match &mut self.master_list[i].0 {
                        Some(e) => {
                            e.raw.current_grid_x = nx;
                            e.raw.current_grid_y = ny;
                        },
                        None => {},
                    }
                    let ghost moved = *self;
                    self.entities_by_pos[nb].push(id);
                    proof {
                        lemma_refiled_wf(pre, removed, moved, *self, i as int, ob as int, nb as int);
                    }
                }
            }
            i = i + 1;
        }
    }
}

proof fn lemma_count_empty_same<T>(s: Seq<(Option<Entry<T>>, u32)>, t: Seq<(Option<Entry<T>>, u32)>)
    requires
        s.len() == t.len(),
        forall|j: int| 0 <= j < s.len() ==> ((#[trigger] s[j]).0 is None <==> t[j].0 is None),
    ensures
        count_empty(s) == count_empty(t),
    decreases s.len(),
{
    if s.len() > 0 {
        lemma_count_empty_same(s.drop_last(), t.drop_last());
    }
}

/// A change that keeps which slots are live, their generations and their cached bucket
/// coordinates keeps the container well formed.
pub proof fn lemma_same_layout_wf<T>(a: EntityContainer<T>, b: EntityContainer<T>)
    requires
        a.wf(),
        b.entities_by_pos == a.entities_by_pos,
        b.current_index == a.current_index,
        b.empty_slots == a.empty_slots,
        b.master_list@.len() == a.master_list@.len(),
        forall|j: int| #![trigger b.master_list@[j]] 0 <= j < a.master_list@.len() ==> {
            &&& (b.live(j) <==> a.live(j))
            &&& b.generation(j) == a.generation(j)
            &&& (a.live(j) ==> b.raw_of(j).current_grid_x == a.raw_of(j).current_grid_x
                && b.raw_of(j).current_grid_y == a.raw_of(j).current_grid_y)
        },
    ensures
        b.wf(),
{
    assert forall|j: int| 0 <= j < a.master_list@.len() implies ((#[trigger] a.master_list@[j]).0 is None <==> b.master_list@[j].0 is None) by {
        assert(b.live(j) <==> a.live(j));
    }
    lemma_count_empty_same(a.master_list@, b.master_list@);
    assert forall|i: int| #[trigger] b.live(i) implies b.raw_of(i).current_grid_x < GRID_WIDTH
        && b.raw_of(i).current_grid_y < GRID_HEIGHT
        && b.bucket(b.home(i)).contains((i as usize, b.generation(i))) by {
        assert(b.master_list@[i] == b.master_list@[i]);
        assert(a.live(i));
    }
    assert forall|bb: int, k: int|
        0 <= bb < GRID_WIDTH * GRID_HEIGHT && 0 <= k < b.bucket(bb).len() implies {
            let x = #[trigger] b.bucket(bb)[k];
            b.id_valid_spec(x) && b.home(x.0 as int) == bb
        } by {
        let x = b.bucket(bb)[k];
        assert(a.bucket(bb)[k] == x);
        assert(b.master_list@[x.0 as int] == b.master_list@[x.0 as int]);
    }
    assert forall|bb: int| 0 <= bb < GRID_WIDTH * GRID_HEIGHT implies #[trigger] b.bucket(bb).no_duplicates() by {
        assert(a.bucket(bb).no_duplicates());
    }
}

/// A container never holds more live entities than it has slots.
pub proof fn lemma_live_count_bound<T>(c: EntityContainer<T>)
    ensures
        c.live_count() <= c.slot_count(),
{
}

/// A successful addition adds one live entity and leaves every entity that was there.
pub proof fn lemma_add_grows<T>(old: EntityContainer<T>, entity: Entry<T>, r: Option<EntityID>, new: EntityContainer<T>)
    requires
        old.wf(),
        EntityContainer::add_post(old, entity, r, new),
        r is Some,
    ensures
        new.live_count() == old.live_count() + 1,
        forall|id: EntityID| #[trigger] old.id_valid_spec(id) ==> new.id_valid_spec(id) && new.entry(id.0 as int) == old.entry(id.0 as int),
{
    let id = r.unwrap();
    let i = id.0 as int;
    if i < old.slot_count() {
        assert(new.master_list@ =~= old.master_list@.update(i, new.master_list@[i]));
        lemma_count_empty_update(old.master_list@, i, new.master_list@[i]);
    } else {
        assert(new.master_list@ =~= old.master_list@.push(new.master_list@[i]));
        lemma_count_empty_push(old.master_list@, new.master_list@[i]);
    }
    assert forall|x: EntityID| #[trigger] old.id_valid_spec(x) implies new.id_valid_spec(x) && new.entry(x.0 as int) == old.entry(x.0 as int) by {
        assert(x.0 != id.0);
        assert(new.master_list@[x.0 as int] == old.master_list@[x.0 as int]);
    }
}

/// Under well-formedness, an id is filed in bucket `b` exactly when it is valid and
/// `b` is its home bucket.
proof fn lemma_bucket_membership<T>(c: EntityContainer<T>, b: int, id: EntityID)
    requires
        c.wf(),
        0 <= b < GRID_WIDTH * GRID_HEIGHT,
    ensures
        c.bucket(b).contains(id) <==> (c.id_valid_spec(id) && c.home(id.0 as int) == b),
{
    if c.bucket(b).contains(id) {
        let k = choose|k: int| 0 <= k < c.bucket(b).len() && c.bucket(b)[k] == id;
        assert(c.id_valid_spec(c.bucket(b)[k]));
    }
    if c.id_valid_spec(id) && c.home(id.0 as int) == b {
        assert(c.live(id.0 as int));
    }
}

/// Invariant of the bucket index: after synchronisation every live entity is filed
/// in exactly one bucket, and that bucket is the grid cell its position lies in
/// (for a position inside the grid, the floor of each coordinate).
pub proof fn lemma_bucket_consistency<T>(before: EntityContainer<T>, after: EntityContainer<T>, id: EntityID)
    requires
        EntityContainer::sync_post(before, after),
        after.id_valid_spec(id),
    ensures
        ({
            let raw = after.raw_of(id.0 as int);
            let b = bucket_index(raw.grid_x(), raw.grid_y());
            &&& after.bucket(b).contains(id)
            &&& forall|bb: int| 0 <= bb < GRID_WIDTH * GRID_HEIGHT && #[trigger] after.bucket(bb).contains(id) ==> bb == b
            &&& forall|p: int, q: int|
                0 <= p < after.bucket(b).len() && 0 <= q < after.bucket(b).len() && after.bucket(b)[p] == id
                    && after.bucket(b)[q] == id ==> p == q
            &&& (0 <= raw.x < GRID_WIDTH * UNIT ==> raw.grid_x() == raw.x / UNIT)
            &&& (0 <= raw.y < GRID_HEIGHT * UNIT ==> raw.grid_y() == raw.y / UNIT)
        }),
{
    let i = id.0 as int;
    assert(after.live(i));
    let raw = after.raw_of(i);
    assert(raw.is_synced());
    let b = bucket_index(raw.grid_x(), raw.grid_y());
    assert(after.bucket(b).contains(id));
    assert forall|bb: int| 0 <= bb < GRID_WIDTH * GRID_HEIGHT && #[trigger] after.bucket(bb).contains(id) implies bb == b by {
        lemma_bucket_membership(after, bb, id);
    }
    assert(0 <= b < GRID_WIDTH * GRID_HEIGHT);
    assert(after.bucket(b).no_duplicates());
    if 0 <= raw.x < GRID_WIDTH * UNIT {
        vstd::arithmetic::div_mod::lemma_div_is_ordered(raw.x as int, GRID_WIDTH * UNIT - 1, UNIT as int);
        assert((GRID_WIDTH * UNIT - 1) / (UNIT as int) == GRID_WIDTH - 1);
    }
    if 0 <= raw.y < GRID_HEIGHT * UNIT {
        vstd::arithmetic::div_mod::lemma_div_is_ordered(raw.y as int, GRID_HEIGHT * UNIT - 1, UNIT as int);
        assert((GRID_HEIGHT * UNIT - 1) / (UNIT as int) == GRID_HEIGHT - 1);
    }
}

/// Generation safety: an id captured before its entity was removed resolves to nothing
/// once the removal is synchronised, and still resolves to nothing after another entity
/// is added, also when that entity takes over the freed slot.
pub proof fn lemma_generation_safety<T>(
    s0: EntityContainer<T>,
    s1: EntityContainer<T>,
    s2: EntityContainer<T>,
    id: EntityID,
    entity: Entry<T>,
    r: Option<EntityID>,
)
    requires
        s0.wf(),
        s0.id_valid_spec(id),
        s0.raw_of(id.0 as int).should_be_removed,
        EntityContainer::sync_post(s0, s1),
        EntityContainer::add_post(s1, entity, r, s2),
    ensures
        s1.lookup(id) is None,
        s2.lookup(id) is None,
        r matches Some(nid) ==> nid != id,
{
    let i = id.0 as int;
    assert(s1.master_list@[i] == EntityContainer::<T>::synced_slot(s0.master_list@[i]));
    assert(!s1.live(i));
    assert(s1.generation(i) == id.1);
    if let Some(nid) = r {
        if nid.0 == id.0 {
            assert(nid.1 == wrap_inc(id.1));
        } else {
            assert(s2.master_list@[i] == s1.master_list@[i]);
        }
    }
}

/// Appends `src` to `dst`.
fn append_ids(dst: &mut Vec<EntityID>, src: &Vec<EntityID>)
    ensures
        final(dst)@ == old(dst)@ + src@,
{
    let mut k: usize = 0;
    while k < src.len()
        invariant
            k <= src@.len(),
            dst@ == old(dst)@ + src@.subrange(0, k as int),
        decreases src@.len() - k,
    {
        dst.push(src[k]);
        k = k + 1;
        assert(src@.subrange(0, k as int) == src@.subrange(0, k - 1) + seq![src@[k - 1]]);
    }
    assert(src@.subrange(0, src@.len() as int) == src@);
}

/// `c` lies within one cell of `g` on an axis of `n` cells.
pub open spec fn near_axis(c: int, g: int, n: int) -> bool {
    0 <= c < n && g - 1 <= c <= g + 1
}

/// Ids of the buckets of column `x`, rows `y_lo` up to (excluding) `y_end`, in row order.
pub open spec fn column_ids<T>(c: EntityContainer<T>, x: int, y_lo: int, y_end: int) -> Seq<EntityID>
    decreases y_end - y_lo,
{
    if y_end <= y_lo {
        seq![]
    } else {
        column_ids(c, x, y_lo, y_end - 1) + c.bucket(x + (y_end - 1) * GRID_WIDTH)
    }
}

/// Ids of the buckets of columns `x_lo` up to (excluding) `x_end`, column by column.
pub open spec fn block_ids<T>(c: EntityContainer<T>, x_lo: int, x_end: int, y_lo: int, y_end: int) -> Seq<EntityID>
    decreases x_end - x_lo,
{
    if x_end <= x_lo {
        seq![]
    } else {
        block_ids(c, x_lo, x_end - 1, y_lo, y_end) + column_ids(c, x_end - 1, y_lo, y_end)
    }
}

pub open spec fn near_lo(g: int) -> int {
    if g >= 1 { g - 1 } else { 0 }
}

pub open spec fn near_hi(g: int, n: int) -> int {
    if g <= n - 2 { g + 1 } else { n - 1 }
}

/// The ids of the 3x3 block of buckets around `(gx, gy)`, clamped to the grid, in scan
/// order: column by column, each column from its lowest row.
pub open spec fn near_ids<T>(c: EntityContainer<T>, gx: int, gy: int) -> Seq<EntityID> {
    block_ids(c, near_lo(gx), near_hi(gx, GRID_WIDTH as int) + 1, near_lo(gy), near_hi(gy, GRID_HEIGHT as int) + 1)
}

/// Ids of all entities filed in the 3x3 block of buckets centred on `grid_pos`,
/// clamped to the grid: each exactly once.
pub fn get_entity_ids_near_pos<T>(grid_pos: (usize, usize), entities: &EntityContainer<T>) -> (r: Vec<EntityID>)
    requires
        entities.wf(),
    ensures
        r@ == near_ids(*entities, grid_pos.0 as int, grid_pos.1 as int),
        r@.no_duplicates(),
        forall|id: EntityID| #[trigger] r@.contains(id) <==> {
            &&& entities.id_valid_spec(id)
            &&& near_axis(entities.raw_of(id.0 as int).current_grid_x as int, grid_pos.0 as int, GRID_WIDTH as int)
            &&& near_axis(entities.raw_of(id.0 as int).current_grid_y as int, grid_pos.1 as int, GRID_HEIGHT as int)
        },
{
    let mut output: Vec<EntityID> = Vec::new();
    let gx = grid_pos.0;
    let gy = grid_pos.1;
    let start_x: usize = if gx >= 1 { gx - 1 } else { 0 };
    let start_y: usize = if gy >= 1 { gy - 1 } else { 0 };
    let end_x: usize = if gx <= GRID_WIDTH - 2 { gx + 1 } else { GRID_WIDTH - 1 };
    let end_y: usize = if gy <= GRID_HEIGHT - 2 { gy + 1 } else { GRID_HEIGHT - 1 };
    let mut x: usize = start_x;
    while x <= end_x
        invariant
            entities.wf(),
            start_x <= x,
            x <= end_x + 1 || x == start_x,
            end_x < GRID_WIDTH,
            end_y < GRID_HEIGHT,
            start_x == (if gx >= 1 { gx - 1 } else { 0 }),
            start_y == (if gy >= 1 { gy - 1 } else { 0 }),
            end_x == (if gx <= GRID_WIDTH - 2 { gx + 1 } else { GRID_WIDTH - 1 }),
            end_y == (if gy <= GRID_HEIGHT - 2 { gy + 1 } else { GRID_HEIGHT - 1 }),
            output@.no_duplicates(),
            output@ == block_ids(*entities, start_x as int, x as int, start_y as int, end_y + 1),
            forall|id: EntityID| #[trigger] output@.contains(id) <==> {
                &&& entities.id_valid_spec(id)
                &&& start_x <= entities.raw_of(id.0 as int).current_grid_x < x
                &&& start_y <= entities.raw_of(id.0 as int).current_grid_y <= end_y
            },
        decreases end_x + 1 - x,
    {
        let mut y: usize = start_y;
        while y <= end_y
            invariant
                entities.wf(),
                start_x <= x <= end_x,
                start_y <= y,
                y <= end_y + 1 || y == start_y,
                end_x < GRID_WIDTH,
                end_y < GRID_HEIGHT,
                output@.no_duplicates(),
                start_y == (if gy >= 1 { gy - 1 } else { 0 }),
                output@ == block_ids(*entities, start_x as int, x as int, start_y as int, end_y + 1)
                    + column_ids(*entities, x as int, start_y as int, y as int),
                forall|id: EntityID| #[trigger] output@.contains(id) <==> {
                    &&& entities.id_valid_spec(id)
                    &&& ((start_x <= entities.raw_of(id.0 as int).current_grid_x < x
                        && start_y <= entities.raw_of(id.0 as int).current_grid_y <= end_y)
                        || (entities.raw_of(id.0 as int).current_grid_x == x
                        && start_y <= entities.raw_of(id.0 as int).current_grid_y < y))
                },
            decreases end_y + 1 - y,
        {
            let b: usize = x + y * GRID_WIDTH;
            let ghost before = output@;
            append_ids(&mut output, &entities.entities_by_pos[b]);
            proof {
                let bk = entities.bucket(b as int);
                assert forall|id: EntityID| #[trigger] bk.contains(id) <==> (entities.id_valid_spec(id)
                    && entities.raw_of(id.0 as int).current_grid_x == x
                    && entities.raw_of(id.0 as int).current_grid_y == y) by {
                    lemma_bucket_membership(*entities, b as int, id);
                    if entities.id_valid_spec(id) {
                        assert(entities.live(id.0 as int));
                    }
                }
                assert forall|id: EntityID| #[trigger] output@.contains(id) <==> (before.contains(id) || bk.contains(id)) by {
                    if output@.contains(id) {
                        let k = choose|k: int| 0 <= k < output@.len() && output@[k] == id;
                        if k >= before.len() {
                            assert(bk[k - before.len()] == id);
                        }
                    }
                    if before.contains(id) {
                        let k = choose|k: int| 0 <= k < before.len() && before[k] == id;
                        assert(output@[k] == id);
                    }
                    if bk.contains(id) {
                        let k = choose|k: int| 0 <= k < bk.len() && bk[k] == id;
                        assert(output@[before.len() + k] == id);
                    }
                }
                assert(bk.no_duplicates());
                assert forall|p: int, q: int| 0 <= p < output@.len() && 0 <= q < output@.len() && p != q
                    implies output@[p] != output@[q] by {
                    if p < before.len() && q >= before.len() {
                        assert(before.contains(output@[p]));
                        assert(bk.contains(output@[q]));
                    } else if q < before.len() && p >= before.len() {
                        assert(before.contains(output@[q]));
                        assert(bk.contains(output@[p]));
                    } else if p >= before.len() && q >= before.len() {
                        assert(output@[p] == bk[p - before.len()]);
                        assert(output@[q] == bk[q - before.len()]);
                    }
                }
            }
            proof {
                assert(output@ == block_ids(*entities, start_x as int, x as int, start_y as int, end_y + 1)
                    + column_ids(*entities, x as int, start_y as int, y + 1));
            }
            y = y + 1;
        }
        proof {
            assert(column_ids(*entities, x as int, start_y as int, y as int)
                == column_ids(*entities, x as int, start_y as int, end_y + 1));
            assert(block_ids(*entities, start_x as int, x + 1, start_y as int, end_y + 1)
                == block_ids(*entities, start_x as int, x as int, start_y as int, end_y + 1)
                    + column_ids(*entities, x as int, start_y as int, end_y + 1));
        }
        x = x + 1;
    }
    proof {
        assert(block_ids(*entities, start_x as int, x as int, start_y as int, end_y + 1)
            == block_ids(*entities, start_x as int, end_x + 1, start_y as int, end_y + 1));
    }
    output
}

} // verus!

use cell_sim::entity_container::{
    get_entity_ids_near_pos, position_of, EntityContainer, Entry, RawEntity, GRID_HEIGHT, GRID_WIDTH,
    MAX_ENTITIES_COUNT,
};
use cell_sim::fixed::UNIT;
use cell_sim::cell_data::{Cell, RawCell};
use cell_sim::fns::find_item_index;
use cell_sim::general_data::{clamp_to_section, Buffer, Rect};

fn marker(x: i64, y: i64, tag: u32) -> Entry<u32> {
    Entry { raw: RawEntity::new(x, y, UNIT, UNIT), data: tag }
}

fn bucket_of(c: &EntityContainer<u32>, gx: usize, gy: usize) -> &Vec<(usize, u32)> {
    &c.entities_by_pos[gx + gy * GRID_WIDTH]
}

#[test]
fn raw_entity_seeds_grid_from_position() {
    let r = RawEntity::new(2_500_000, 3_700_000, UNIT, UNIT);
    assert_eq!((r.current_grid_x, r.current_grid_y), (2, 3));
    assert!(!r.should_be_removed);
    let clamped = RawEntity::new(-5, 900 * UNIT, UNIT, UNIT);
    assert_eq!((clamped.current_grid_x, clamped.current_grid_y), (0, GRID_HEIGHT - 1));
}

#[test]
fn add_then_get() {
    let mut c: EntityContainer<u32> = EntityContainer::new();
    let a = c.add_entity(marker(1_500_000, 1_500_000, 7)).unwrap();
    let b = c.add_entity(marker(2_500_000, 1_500_000, 8)).unwrap();
    assert_eq!(a, (0, 0));
    assert_eq!(b, (1, 0));
    assert_eq!(c.get(a).unwrap().data, 7);
    assert_eq!(c.get(b).unwrap().data, 8);
    assert!(c.id_is_valid(a));
    assert!(!c.id_is_valid((0, 1)));
    assert!(!c.id_is_valid((5, 0)));
    assert!(c.get((5, 0)).is_none());
    assert_eq!(bucket_of(&c, 1, 1), &vec![a]);
    assert_eq!(bucket_of(&c, 2, 1), &vec![b]);
}

#[test]
fn get_mut_changes_data_only() {
    let mut c: EntityContainer<u32> = EntityContainer::new();
    let a = c.add_entity(marker(1_500_000, 1_500_000, 7)).unwrap();
    *c.get_mut(a).unwrap() = 9;
    assert_eq!(c.get(a).unwrap().data, 9);
    assert!(c.get_mut((0, 3)).is_none());
}

#[test]
fn capacity_is_enforced() {
    let mut c: EntityContainer<u32> = EntityContainer::new();
    for i in 0..MAX_ENTITIES_COUNT {
        let x = ((i % GRID_WIDTH) as i64) * UNIT;
        let y = ((i / GRID_WIDTH) as i64) * UNIT;
        assert!(c.add_entity(marker(x, y, i as u32)).is_some());
    }
    assert!(c.add_entity(marker(0, 0, 0)).is_none());
    assert_eq!(c.master_list.len(), MAX_ENTITIES_COUNT);
}

#[test]
fn sync_moves_entity_between_buckets() {
    let mut c: EntityContainer<u32> = EntityContainer::new();
    let a = c.add_entity(marker(2_500_000, 3_500_000, 1)).unwrap();
    c.master_list[a.0].0.as_mut().unwrap().raw.x = 5_200_000;
    // not yet synchronised: the index still files it under its old cell
    assert_eq!(bucket_of(&c, 2, 3), &vec![a]);
    c.sync_fields();
    assert!(bucket_of(&c, 2, 3).is_empty());
    assert_eq!(bucket_of(&c, 5, 3), &vec![a]);
    let raw = c.get(a).unwrap().raw;
    assert_eq!((raw.current_grid_x, raw.current_grid_y), (5, 3));
    let total: usize = c.entities_by_pos.iter().map(|b| b.iter().filter(|id| **id == a).count()).sum();
    assert_eq!(total, 1);
}

#[test]
fn removal_then_reuse_invalidates_old_id() {
    let mut c: EntityContainer<u32> = EntityContainer::new();
    let old_id = c.add_entity(marker(1_500_000, 1_500_000, 1)).unwrap();
    c.master_list[old_id.0].0.as_mut().unwrap().raw.should_be_removed = true;
    c.sync_fields();
    assert!(c.get(old_id).is_none());
    assert_eq!(c.empty_slots, 1);
    assert!(bucket_of(&c, 1, 1).is_empty());
    let new_id = c.add_entity(marker(3_500_000, 1_500_000, 2)).unwrap();
    assert_eq!(new_id, (old_id.0, old_id.1 + 1));
    assert!(c.get(old_id).is_none());
    assert!(!c.id_is_valid(old_id));
    assert_eq!(c.get(new_id).unwrap().data, 2);
    assert_eq!(c.empty_slots, 0);
}

#[test]
fn slots_are_appended_below_the_reuse_ratio() {
    let mut c: EntityContainer<u32> = EntityContainer::new();
    let mut ids = vec![];
    for i in 0..40 {
        ids.push(c.add_entity(marker((i as i64) * UNIT, 0, i)).unwrap());
    }
    c.master_list[ids[3].0].0.as_mut().unwrap().raw.should_be_removed = true;
    c.sync_fields();
    // one tombstone in forty slots is under one in twenty: append
    let fresh = c.add_entity(marker(0, UNIT, 99)).unwrap();
    assert_eq!(fresh, (40, 0));
    c.master_list[ids[7].0].0.as_mut().unwrap().raw.should_be_removed = true;
    c.master_list[ids[9].0].0.as_mut().unwrap().raw.should_be_removed = true;
    c.sync_fields();
    // three tombstones in forty-one slots reach one in twenty: reuse
    let reused = c.add_entity(marker(0, UNIT, 100)).unwrap();
    assert!(reused.0 == 3 || reused.0 == 7 || reused.0 == 9);
    assert_eq!(reused.1, 1);
}

#[test]
fn neighbors_cover_three_by_three_block() {
    let mut c: EntityContainer<u32> = EntityContainer::new();
    let centre = c.add_entity(marker(5_500_000, 5_500_000, 0)).unwrap();
    let corner = c.add_entity(marker(4_100_000, 6_900_000, 1)).unwrap();
    let far = c.add_entity(marker(7_500_000, 5_500_000, 2)).unwrap();
    let near = get_entity_ids_near_pos((5, 5), &c);
    assert_eq!(near.len(), 2);
    assert!(near.contains(&centre));
    assert!(near.contains(&corner));
    assert!(!near.contains(&far));
}

#[test]
fn neighbors_clamp_at_grid_edge() {
    let mut c: EntityContainer<u32> = EntityContainer::new();
    let edge = c.add_entity(marker(127_500_000, 127_500_000, 0)).unwrap();
    let inside = c.add_entity(marker(126_500_000, 126_500_000, 1)).unwrap();
    let origin = c.add_entity(marker(0, 0, 2)).unwrap();
    let near = get_entity_ids_near_pos((GRID_WIDTH - 1, GRID_HEIGHT - 1), &c);
    assert_eq!(near.len(), 2);
    assert!(near.contains(&edge) && near.contains(&inside));
    let near_origin = get_entity_ids_near_pos((0, 0), &c);
    assert_eq!(near_origin, vec![origin]);
    assert!(get_entity_ids_near_pos((GRID_WIDTH + 5, 0), &c).is_empty());
}

#[test]
fn find_item_index_first_match() {
    assert_eq!(find_item_index(&[3, 5, 7, 5], &5), Some(1));
    assert_eq!(find_item_index(&[3, 5, 7], &4), None);
    assert_eq!(find_item_index::<u8>(&[], &4), None);
}

#[test]
fn position_of_finds_id() {
    let ids = vec![(1usize, 0u32), (2, 3), (2, 4)];
    assert_eq!(position_of(&ids, (2, 4)), Some(2));
    assert_eq!(position_of(&ids, (2, 5)), None);
}

#[test]
fn buffer_keeps_two_copies() {
    let mut b = Buffer::new(vec![1, 2]);
    assert_eq!(b.main(), &vec![1, 2]);
    assert_eq!(b.alt(), &vec![1, 2]);
    b.main_mut().push(3);
    assert_eq!(b.main(), &vec![1, 2, 3]);
    assert_eq!(b.alt(), &vec![1, 2]);
    b.alt_mut().clear();
    assert!(b.alt().is_empty());
    {
        let (main, alt) = b.both_mut();
        main.push(alt.len() as i32);
    }
    assert_eq!(b.main(), &vec![1, 2, 3, 0]);
    let (main, alt) = b.both();
    assert_eq!((main.len(), alt.len()), (4, 0));
}

#[test]
fn clamp_to_section_clips_both_sides() {
    let section = Rect { x: 100, y: 50, width: 200, height: 100 };
    let inside = Rect { x: 10, y: 20, width: 30, height: 40 };
    assert_eq!(
        clamp_to_section(&inside, &section),
        (Rect { x: 0, y: 0, width: 30, height: 40 }, Rect { x: 110, y: 70, width: 30, height: 40 })
    );
    let overlapping = Rect { x: -10, y: 90, width: 30, height: 40 };
    assert_eq!(
        clamp_to_section(&overlapping, &section),
        (Rect { x: 10, y: 0, width: 20, height: 10 }, Rect { x: 100, y: 140, width: 20, height: 10 })
    );
    let outside = Rect { x: 300, y: 0, width: 10, height: 10 };
    assert_eq!(clamp_to_section(&outside, &section).1.width, 0);
}

#[test]
fn distance_between_cells() {
    let a = Cell::new(RawCell::new_photosynthesiser_cell(), 1_000_000, 1_000_000, UNIT, UNIT, 0);
    let b = Cell::new_with_vel(RawCell::new_photosynthesiser_cell(), (4_000_000, 5_000_000), UNIT, UNIT, 0, (1, 2));
    assert_eq!(a.distance_to(&b), 5_000_000);
    assert_eq!(a.pos_change_to(&b), (3_000_000, 4_000_000));
    assert_eq!(a.vel_change_to(&b), (1, 2));
}

#[test]
fn neighbors_come_in_scan_order() {
    let mut c: EntityContainer<u32> = EntityContainer::new();
    for v in [500_000, 1_500_000, 2_500_000] {
        c.add_entity(marker(v, v, 0)).unwrap();
    }
    assert_eq!(get_entity_ids_near_pos((0, 0), &c), vec![(0, 0), (1, 0)]);
    let d = c.add_entity(marker(500_000, 1_500_000, 0)).unwrap();
    // column 0 (rows 0, 1) comes before column 1
    assert_eq!(get_entity_ids_near_pos((0, 0), &c), vec![(0, 0), d, (1, 0)]);
}

#[test]
fn second_sync_changes_nothing() {
    let mut c: EntityContainer<u32> = EntityContainer::new();
    let a = c.add_entity(marker(2_500_000, 3_500_000, 1)).unwrap();
    let b = c.add_entity(marker(2_700_000, 3_200_000, 2)).unwrap();
    c.master_list[a.0].0.as_mut().unwrap().raw.x = 5_200_000;
    c.sync_fields();
    let buckets = c.entities_by_pos.clone();
    let cursor = c.current_index;
    c.sync_fields();
    assert_eq!(c.entities_by_pos, buckets);
    assert_eq!(c.current_index, cursor);
    assert_eq!(bucket_of(&c, 2, 3), &vec![b]);
}

#[test]
fn reuse_takes_first_empty_slot_from_cursor() {
    let mut c: EntityContainer<u32> = EntityContainer::new();
    let ids: Vec<_> = (0..10).map(|i| c.add_entity(marker(i * UNIT, 0, i as u32)).unwrap()).collect();
    for k in [2, 6] {
        c.master_list[ids[k].0].0.as_mut().unwrap().raw.should_be_removed = true;
    }
    c.sync_fields();
    let first = c.add_entity(marker(0, UNIT, 20)).unwrap();
    assert_eq!(first, (2, 1));
    assert_eq!(c.current_index, 2);
    let second = c.add_entity(marker(0, UNIT, 21)).unwrap();
    assert_eq!(second, (6, 1));
    assert_eq!(bucket_of(&c, 0, 1), &vec![first, second]);
}

use sigma4_engine::constants::{DELTA_RING_CAPACITY, K_MAX, MAX_SLICES};
use sigma4_engine::entity::{DeltaEvent, Entity, Relation, SteadyState};
use std::mem::{align_of, size_of};

fn de(ts: u64, mask: u16, ep: u8, dv: f32) -> DeltaEvent {
    DeltaEvent::new(ts, mask, ep, dv.to_bits())
}

#[test]
fn steady_state_layout() {
    assert_eq!(size_of::<SteadyState>(), 2 + 2 + 1 + 5);
    assert_eq!(align_of::<SteadyState>(), 2);
}

#[test]
fn steady_state_new_keeps_fields() {
    let s = SteadyState::new(7, 9, 1);
    assert_eq!((s.geography, s.industry, s.ownership_type), (7, 9, 1));
}

#[test]
fn entity_new_id_at_max_entities_is_accepted() {
    let e = Entity::new(65_535, 0, 4);
    assert_eq!(e.id, 65_535);
}

#[test]
fn entity_new_is_zeroed() {
    let e = Entity::new(3, 2, 4);
    assert_eq!((e.id, e.entity_type, e.num_slices, e.flags), (3, 2, 4, 0));
    assert_eq!(e.valid_from, 0);
    assert_eq!(e.valid_until, i64::MAX);
    assert_eq!(e.delta_ring.len(), DELTA_RING_CAPACITY);
    assert_eq!((e.ring_head, e.ring_tail), (0, 0));
    assert!(e.coordinates.iter().all(|row| row.iter().all(|&x| x == 0)));
    assert!(e.slice_dims.iter().all(|&d| d == 0));
    assert_eq!(e.steady_state.ownership_type, 0);
    assert_eq!(e.name_len, 0);
}

#[test]
fn delta_ring_capacity_boundaries() {
    let mut entity = Entity::new(0, 0, 0);
    let delta = de(0, 0, 0, 0.0);
    for _ in 0..1023 {
        entity.apply_delta_singlethreaded(delta);
    }
    assert_eq!(entity.ring_head, 1023);
    assert_eq!(entity.ring_tail, 0);
}

#[test]
fn apply_delta_writes_at_head_slot() {
    let mut e = Entity::new(0, 0, 1);
    e.apply_delta_singlethreaded(de(100, 1, 0, 0.0));
    assert_eq!(e.ring_head, 1);
    assert_eq!(e.delta_ring[0].timestamp_us, 100);
    e.ring_head = 1030;
    e.ring_tail = 1029;
    e.apply_delta_singlethreaded(de(7, 2, 3, 0.5));
    assert_eq!(e.ring_head, 1031);
    assert_eq!(e.delta_ring[1030 % DELTA_RING_CAPACITY].timestamp_us, 7);
}

#[test]
fn apply_delta_head_wraps_around_u32() {
    let mut e = Entity::new(0, 0, 1);
    e.ring_head = u32::MAX;
    e.ring_tail = u32::MAX - 1;
    e.apply_delta_singlethreaded(de(1, 1, 0, 0.25));
    assert_eq!(e.ring_head, 0);
    assert_eq!(e.delta_ring[(u32::MAX as usize) % DELTA_RING_CAPACITY].timestamp_us, 1);
    let steps = e.replayable_deltas(u64::MAX);
    // The older pending slot holds the zeroed event, whose empty mask names no facet.
    assert_eq!(steps, vec![(0, 0, 0.25f32.to_bits())]);
}

#[test]
fn replay_respects_query_time() {
    let mut e = Entity::new(0, 0, 4);
    e.apply_delta_singlethreaded(de(100, 1, 0, 0.3));
    e.apply_delta_singlethreaded(de(200, 1, 0, 0.2));
    assert!(e.replayable_deltas(50).is_empty());
    assert_eq!(e.replayable_deltas(100), vec![(0, 0, 0.3f32.to_bits())]);
    assert_eq!(
        e.replayable_deltas(u64::MAX),
        vec![(0, 0, 0.3f32.to_bits()), (0, 0, 0.2f32.to_bits())]
    );
}

#[test]
fn replay_locates_slice_by_lowest_set_bit() {
    let mut e = Entity::new(0, 0, 4);
    e.apply_delta_singlethreaded(de(5, 1 << 2, 1, 0.5));
    e.apply_delta_singlethreaded(de(5, 0b11, 0, 0.1));
    e.apply_delta_singlethreaded(de(5, 0x8000, 0, 0.2));
    assert_eq!(
        e.replayable_deltas(u64::MAX),
        vec![(2, 1, 0.5f32.to_bits()), (0, 0, 0.1f32.to_bits()), (15, 0, 0.2f32.to_bits())]
    );
}

#[test]
fn replay_skips_out_of_range_targets() {
    let mut e = Entity::new(0, 0, 4);
    e.apply_delta_singlethreaded(de(0, 1, 10, 0.1));
    e.apply_delta_singlethreaded(de(0, 1, K_MAX as u8, 0.1));
    e.apply_delta_singlethreaded(de(0, 0, 0, 0.1));
    assert!(e.replayable_deltas(u64::MAX).is_empty());
    assert_eq!(MAX_SLICES, 16);
}

#[test]
fn relation_compiles_and_sized() {
    let r = Relation {
        from_id: 1,
        to_id: 2,
        relation_type: 0,
        weight_bits: 0.5f32.to_bits(),
        time_lag_us: 100,
        valid_from: 0,
        valid_until: i64::MAX,
    };
    assert_eq!(align_of::<Relation>(), 8);
    assert_eq!(r.from_id, 1);
}

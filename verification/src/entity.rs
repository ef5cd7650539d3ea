//! Entity layout, delta events and the per-entity delta ring.
//!
//! Coordinates are stored as `[facet][endpoint]` rows of IEEE-754 `f32`
//! bit patterns; the ring holds the pending coordinate updates of one entity.

use vstd::prelude::*;
use crate::constants::{DELTA_RING_CAPACITY, K_MAX, MAX_ENTITIES, MAX_SLICES};

verus! {

/// A single-point coordinate update.
#[derive(Clone, Copy)]
pub struct DeltaEvent {
    /// Event timestamp (microseconds, monotone).
    pub timestamp_us: u64,
    /// Bit mask of the affected facets (bit i is facet i; the lowest set bit is used).
    pub slice_mask: u16,
    /// Endpoint index inside the facet.
    pub endpoint_idx: u8,
    /// IEEE-754 bit pattern of the `f32` increment of that endpoint's coordinate.
    pub delta_bits: u32,
}

impl DeltaEvent {
    /// Builds a delta event.
    pub fn new(timestamp_us: u64, slice_mask: u16, endpoint_idx: u8, delta_bits: u32) -> (r: Self)
        ensures
            r == (DeltaEvent { timestamp_us, slice_mask, endpoint_idx, delta_bits }),
    {
        DeltaEvent { timestamp_us, slice_mask, endpoint_idx, delta_bits }
    }
}

/// Steady attributes of an entity (geography, industry, ownership type).
pub struct SteadyState {
    /// Geography code.
    pub geography: u16,
    /// Industry code.
    pub industry: u16,
    /// Ownership type (sovereign, family, state group, hedge fund, ...).
    pub ownership_type: u8,
    /// Padding to the ten-byte layout; zero in every value this crate builds.
    pub _pad: [u8; 5],
}

impl View for SteadyState {
    /// `(geography, industry, ownership_type)`.
    type V = (u16, u16, u8);

    open spec fn view(&self) -> (u16, u16, u8) {
        (self.geography, self.industry, self.ownership_type)
    }
}

impl SteadyState {
    /// Builds the steady attributes; the padding bytes are zero.
    pub fn new(geography: u16, industry: u16, ownership_type: u8) -> (r: Self)
        ensures
            r@ == (geography, industry, ownership_type),
            r.padding_is_zero(),
    {
        SteadyState { geography, industry, ownership_type, _pad: [0u8, 0u8, 0u8, 0u8, 0u8] }
    }

    /// Every padding byte is zero.
    pub open spec fn padding_is_zero(&self) -> bool {
        forall|i: int| 0 <= i < 5 ==> #[trigger] self._pad@[i] == 0
    }
}

/// A relation edge between entities (the source of a cascade matrix entry).
pub struct Relation {
    /// Source entity id.
    pub from_id: u32,
    /// Target entity id.
    pub to_id: u32,
    /// Relation type (shareholding, influence, intelligence sharing, ...).
    pub relation_type: u8,
    /// IEEE-754 bit pattern of the `f32` propagation weight in `[0, 1]`.
    pub weight_bits: u32,
    /// Propagation lag (microseconds).
    pub time_lag_us: u32,
    /// Start of validity (microseconds).
    pub valid_from: i64,
    /// End of validity (microseconds).
    pub valid_until: i64,
}

/// A state query snapshot: a deep copy of the coordinates after replay and projection.
#[derive(Clone, Copy)]
pub struct EntitySnapshot {
    /// Coordinates `[facet][endpoint]`, as `f32` bit patterns.
    pub coords: [[u32; K_MAX]; MAX_SLICES],
    /// Active dimension of each facet.
    pub slice_dims: [u8; MAX_SLICES],
    /// Number of active facets.
    pub num_slices: u8,
}

/// An entity: one capital player (macro fund, sovereign fund, family network, state group, ...).
pub struct Entity {
    /// Globally unique id (index in the entity pool).
    pub id: u32,
    /// Category code (A..E as 0..4).
    pub entity_type: u8,
    /// Flag bits.
    pub flags: u8,
    /// Number of active facets (at most `MAX_SLICES`).
    pub num_slices: u8,
    /// Start of validity (microseconds, may be negative).
    pub valid_from: i64,
    /// End of validity (microseconds; `i64::MAX` means forever).
    pub valid_until: i64,
    /// Simplex coordinates `[facet][endpoint]`, as `f32` bit patterns.
    pub coordinates: [[u32; K_MAX]; MAX_SLICES],
    /// Active dimension of each facet (at most `K_MAX`; the remaining columns are zero padding).
    pub slice_dims: [u8; MAX_SLICES],
    /// Delta ring buffer.
    pub delta_ring: [DeltaEvent; DELTA_RING_CAPACITY],
    /// Ring head: the next slot to write (wraps around `u32`).
    pub ring_head: u32,
    /// Ring tail: the next slot to read (wraps around `u32`).
    pub ring_tail: u32,
    /// Steady attributes.
    pub steady_state: SteadyState,
    /// Byte length of the display name (the name itself is held by the pool).
    pub name_len: u16,
}

/// Number of events between `tail` and `head` on the wrapping `u32` counter.
pub open spec fn ring_count(head: u32, tail: u32) -> int {
    (head as int - tail as int) % 0x1_0000_0000
}

/// The ring slot that the wrapping counter value `i` maps to.
pub open spec fn ring_slot(i: int) -> int {
    i % (DELTA_RING_CAPACITY as int)
}

impl Entity {
    /// The pending events, oldest first: the slots from `ring_tail` up to `ring_head`.
    pub open spec fn pending(&self) -> Seq<DeltaEvent> {
        Seq::new(
            ring_count(self.ring_head, self.ring_tail) as nat,
            |i: int| self.delta_ring@[ring_slot(self.ring_tail as int + i)],
        )
    }

    /// Every field but the ring and its head is the same in `self` and `other`.
    pub open spec fn same_except_ring(&self, other: &Self) -> bool {
        &&& self.id == other.id
        &&& self.entity_type == other.entity_type
        &&& self.flags == other.flags
        &&& self.num_slices == other.num_slices
        &&& self.valid_from == other.valid_from
        &&& self.valid_until == other.valid_until
        &&& self.coordinates == other.coordinates
        &&& self.slice_dims == other.slice_dims
        &&& self.ring_tail == other.ring_tail
        &&& self.steady_state == other.steady_state
        &&& self.name_len == other.name_len
    }

    /// Builds a zeroed entity: coordinates, dimensions and ring cleared, valid forever.
    pub fn new(id: u32, entity_type: u8, num_slices: u8) -> (r: Self)
        requires
            num_slices as int <= MAX_SLICES,
            (id as int) < MAX_ENTITIES,
        ensures
            r.id == id,
            r.entity_type == entity_type,
            r.num_slices == num_slices,
            r.flags == 0,
            r.valid_from == 0,
            r.valid_until == i64::MAX,
            forall|s: int, k: int|
                0 <= s < MAX_SLICES && 0 <= k < K_MAX ==> #[trigger] r.coordinates[s][k] == 0,
            forall|s: int| 0 <= s < MAX_SLICES ==> #[trigger] r.slice_dims[s] == 0,
            forall|i: int|
                0 <= i < DELTA_RING_CAPACITY ==> #[trigger] r.delta_ring@[i] == (DeltaEvent {
                    timestamp_us: 0,
                    slice_mask: 0,
                    endpoint_idx: 0,
                    delta_bits: 0,
                }),
            r.ring_head == 0,
            r.ring_tail == 0,
            r.pending() =~= Seq::<DeltaEvent>::empty(),
            r.steady_state@ == (0u16, 0u16, 0u8),
            r.steady_state.padding_is_zero(),
            r.name_len == 0,
    {
        let zero = DeltaEvent::new(0, 0, 0, 0);
        let ring = [zero; 1024];
        Entity {
            id,
            entity_type,
            flags: 0,
            num_slices,
            valid_from: 0,
            valid_until: i64::MAX,
            coordinates: [[0u32; 8]; 16],
            slice_dims: [0u8; 16],
            delta_ring: ring,
            ring_head: 0,
            ring_tail: 0,
            steady_state: SteadyState::new(0, 0, 0),
            name_len: 0,
        }
    }

    /// Writes one delta event at the ring head and advances the head (single producer).
    ///
    /// The write that would leave `DELTA_RING_CAPACITY` or more events pending is
    /// refused by the precondition: the ring then needs a snapshot flush first.
    pub fn apply_delta_singlethreaded(&mut self, delta: DeltaEvent)
        requires
            ring_count(next_head(old(self).ring_head), old(self).ring_tail) < DELTA_RING_CAPACITY,
        ensures
            final(self).same_except_ring(old(self)),
            final(self).delta_ring@ == old(self).delta_ring@.update(
                ring_slot(old(self).ring_head as int),
                delta,
            ),
            final(self).ring_head == next_head(old(self).ring_head),
            ring_count(old(self).ring_head, old(self).ring_tail) + 1 < DELTA_RING_CAPACITY
                ==> final(self).pending() =~= old(self).pending().push(delta),
    {
        let cap = DELTA_RING_CAPACITY as u32;
        let idx = (self.ring_head % cap) as usize;
        self.delta_ring[idx] = delta;
        self.ring_head = self.ring_head.wrapping_add(1);
        proof {
            lemma_push_pending(*old(self), *self, delta);
        }
    }

    /// The coordinate increments a state query at `query_time_us` replays, oldest first.
    ///
    /// The ring is walked from `ring_tail` to `ring_head`; an event counts when its
    /// timestamp is not later than the query, and it lands on the facet of the lowest
    /// set bit of its mask, if that facet and its endpoint are in range.
    pub fn replayable_deltas(&self, query_time_us: u64) -> (r: Vec<(usize, usize, u32)>)
        ensures
            r@ == replay_steps(self.pending(), query_time_us),
    {
        let head = self.ring_head;
        let tail = self.ring_tail;
        let cap = DELTA_RING_CAPACITY as u32;
        let ghost n = ring_count(head, tail);
        let ghost pend = self.pending();
        let mut out: Vec<(usize, usize, u32)> = Vec::new();
        let mut i = tail;
        let ghost mut k: int = 0;
        proof {
            lemma_head_slot(head, tail);
            assert(pend.take(0) =~= Seq::<DeltaEvent>::empty());
        }
        while i != head
            invariant
                    cap == DELTA_RING_CAPACITY,
                head == self.ring_head,
                tail == self.ring_tail,
                n == ring_count(head, tail),
                pend == self.pending(),
                0 <= n < 0x1_0000_0000,
                0 <= k <= n,
                i as int == (tail as int + k) % 0x1_0000_0000,
                out@ == replay_steps(pend.take(k), query_time_us),
            decreases n - k,
        {
            proof {
                lemma_counter_reaches_head(head, tail, k);
            }
            let ev = self.delta_ring[(i % cap) as usize];
            proof {
                lemma_counter_slot(tail as int + k);
                assert(ev == pend[k]);
                assert(pend.take(k + 1).drop_last() =~= pend.take(k));
            }
            if ev.timestamp_us <= query_time_us {
                let slice = ev.slice_mask.trailing_zeros() as usize;
                let ep = ev.endpoint_idx as usize;
                if slice < MAX_SLICES && ep < K_MAX {
                    out.push((slice, ep, ev.delta_bits));
                }
            }
            i = i.wrapping_add(1);
            proof {
                k = k + 1;
            }
        }
        proof {
            lemma_counter_reaches_head(head, tail, k);
            assert(pend.take(n) =~= pend);
        }
        out
    }
}

/// The wrapping counter meets the head exactly after the pending events.
proof fn lemma_counter_reaches_head(head: u32, tail: u32, k: int)
    requires
        0 <= k <= ring_count(head, tail),
    ensures
        ((tail as int + k) % 0x1_0000_0000 == head as int) <==> k == ring_count(head, tail),
{
}

/// Reducing the counter modulo 2^32 keeps its ring slot.
proof fn lemma_counter_slot(x: int)
    requires
        0 <= x,
    ensures
        ring_slot(x % 0x1_0000_0000) == ring_slot(x),
        (x % 0x1_0000_0000) % 1024 == x % 1024,
{
    vstd::arithmetic::div_mod::lemma_mod_mod(x, 1024, 0x40_0000);
}

/// Where a pending event lands when the state is replayed at `query_time_us`:
/// `(facet, endpoint, increment bits)` for an event not later than the query whose
/// facet (the lowest set bit of its mask) and endpoint are in range, nothing otherwise.
pub open spec fn replay_step(ev: DeltaEvent, query_time_us: u64) -> Option<(usize, usize, u32)> {
    if ev.timestamp_us <= query_time_us && (ev.slice_mask.trailing_zeros() as int) < MAX_SLICES
        && (ev.endpoint_idx as int) < K_MAX {
        Some((ev.slice_mask.trailing_zeros() as usize, ev.endpoint_idx as usize, ev.delta_bits))
    } else {
        None
    }
}

/// An event is replayed at `query_time_us` exactly when it is not later than the query, its
/// mask names a facet and its endpoint is below `K_MAX`, whatever its increment (a negative
/// increment included). It then lands on the facet of the lowest set bit of its mask, at its
/// endpoint, with its increment unchanged.
pub proof fn lemma_replay_step_law(ev: DeltaEvent, query_time_us: u64)
    ensures
        (replay_step(ev, query_time_us) is Some) <==> (ev.timestamp_us <= query_time_us
            && ev.slice_mask != 0 && (ev.endpoint_idx as int) < K_MAX),
        replay_step(ev, query_time_us) is Some ==> {
            let (f, e, d) = replay_step(ev, query_time_us)->0;
            &&& e == ev.endpoint_idx as usize
            &&& d == ev.delta_bits
            &&& f < 16
            &&& (ev.slice_mask >> (f as u16)) & 1u16 == 1u16
            &&& forall|j: u16| j < f ==> #[trigger] ((ev.slice_mask >> j) & 1u16) == 0u16
        },
{
    vstd::std_specs::bits::axiom_u16_trailing_zeros(ev.slice_mask);
}

/// The replay steps of a sequence of events, in order.
pub open spec fn replay_steps(evs: Seq<DeltaEvent>, query_time_us: u64) -> Seq<(usize, usize, u32)>
    decreases evs.len(),
{
    if evs.len() == 0 {
        Seq::empty()
    } else {
        let rest = replay_steps(evs.drop_last(), query_time_us);
        match replay_step(evs.last(), query_time_us) {
            Some(step) => rest.push(step),
            None => rest,
        }
    }
}

/// A state query after a write replays what it replayed before, followed by the written
/// event's step when the event counts at that query time.
pub proof fn lemma_replay_after_write(pending: Seq<DeltaEvent>, ev: DeltaEvent, query_time_us: u64)
    ensures
        replay_steps(pending.push(ev), query_time_us) == match replay_step(ev, query_time_us) {
            Some(step) => replay_steps(pending, query_time_us).push(step),
            None => replay_steps(pending, query_time_us),
        },
{
    assert(pending.push(ev).drop_last() =~= pending);
}

/// The head after one more write.
pub open spec fn next_head(head: u32) -> u32 {
    ((head as int + 1) % 0x1_0000_0000) as u32
}

/// The head slot is the slot just past the pending events.
proof fn lemma_head_slot(head: u32, tail: u32)
    ensures
        ring_slot(head as int) == ring_slot(tail as int + ring_count(head, tail)),
        0 <= ring_count(head, tail) < 0x1_0000_0000,
{
    if head < tail {
        assert(tail as int + ring_count(head, tail) == head as int + 0x1_0000_0000);
        assert((head as int + 0x1_0000_0000) % 1024 == head as int % 1024);
    }
}

proof fn lemma_slots_distinct(a: int, i: int, j: int)
    requires
        0 <= a,
        0 <= i < j < DELTA_RING_CAPACITY,
    ensures
        ring_slot(a + i) != ring_slot(a + j),
{
    let qi = (a + i) / 1024;
    let qj = (a + j) / 1024;
    assert(a + i == qi * 1024 + (a + i) % 1024);
    assert(a + j == qj * 1024 + (a + j) % 1024);
    if (a + i) % 1024 == (a + j) % 1024 {
        assert((qj - qi) * 1024 == j - i) by (nonlinear_arith)
            requires
                a + i == qi * 1024 + (a + i) % 1024,
                a + j == qj * 1024 + (a + j) % 1024,
                (a + i) % 1024 == (a + j) % 1024,
        ;
        assert(false) by (nonlinear_arith)
            requires
                (qj - qi) * 1024 == j - i,
                0 < j - i < 1024,
        ;
    }
}

proof fn lemma_next_count(head: u32, tail: u32)
    ensures
        ring_count(head, tail) + 1 < 0x1_0000_0000 ==> ring_count(next_head(head), tail)
            == ring_count(head, tail) + 1,
{
}

proof fn lemma_push_pending(pre: Entity, post: Entity, delta: DeltaEvent)
    requires
        post.delta_ring@ == pre.delta_ring@.update(ring_slot(pre.ring_head as int), delta),
        post.ring_head == next_head(pre.ring_head),
        post.ring_tail == pre.ring_tail,
    ensures
        ring_count(pre.ring_head, pre.ring_tail) + 1 < DELTA_RING_CAPACITY
            ==> post.pending() =~= pre.pending().push(delta),
{
    let n = ring_count(pre.ring_head, pre.ring_tail);
    if n + 1 < DELTA_RING_CAPACITY {
        lemma_head_slot(pre.ring_head, pre.ring_tail);
        lemma_next_count(pre.ring_head, pre.ring_tail);
        let t = pre.ring_tail as int;
        assert forall|i: int| 0 <= i < n + 1 implies #[trigger] post.pending()[i]
            == pre.pending().push(delta)[i] by {
            if i < n {
                lemma_slots_distinct(t, i, n);
            }
        }
    }
}

} // verus!

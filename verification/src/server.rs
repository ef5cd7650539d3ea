//! Frame handling that involves no floating-point work: applying state updates,
//! reading query ids and encoding state responses.

use vstd::prelude::*;
use crate::constants::{K_MAX, MAX_SLICES};
use crate::entity::{next_head, ring_count, ring_slot, Entity, EntitySnapshot};
use crate::protocol::{
    cascade_run_decoding, cascade_run_view, decode_cascade_run, decode_state_update,
    state_update_decoding, CascadeRunRequest, Frame, FrameModel, FrameType, FRAME_VERSION,
};
use crate::wire::{be_u32, lemma_be_u32_round_trip, push_be_u32, read_be_u32, u32_of_be};
use crate::constants::DELTA_RING_CAPACITY;

verus! {

/// The id a StateQuery body asks for: its first four bytes, `u32::MAX` when it is shorter.
pub open spec fn query_id_of(body: Seq<u8>) -> u32 {
    if body.len() < 4 {
        u32::MAX
    } else {
        u32_of_be(body.subrange(0, 4))
    }
}

/// Reads the entity id of a StateQuery body.
pub fn state_query_id(body: &[u8]) -> (r: u32)
    ensures
        r == query_id_of(body@),
{
    if body.len() < 4 {
        u32::MAX
    } else {
        read_be_u32(body, 0)
    }
}

/// The bytes of the first `n` coordinates, row after row, each as four big-endian bytes.
pub open spec fn coords_bytes(c: [[u32; K_MAX]; MAX_SLICES], n: int) -> Seq<u8>
    decreases n,
{
    if n <= 0 {
        Seq::empty()
    } else {
        coords_bytes(c, n - 1) + be_u32(c[(n - 1) / 8][(n - 1) % 8])
    }
}

/// StateResponse body: `entity_id u32 | num_slices u8 | slice_dims 16B | coords 512B`.
pub open spec fn state_response_bytes(id: u32, snap: EntitySnapshot) -> Seq<u8> {
    be_u32(id) + seq![snap.num_slices] + snap.slice_dims@ + coords_bytes(snap.coords, 128)
}

proof fn lemma_coords_bytes(c: [[u32; K_MAX]; MAX_SLICES], n: int, j: int)
    requires
        0 <= j < n,
    ensures
        coords_bytes(c, n).len() == 4 * n,
        coords_bytes(c, n).subrange(4 * j, 4 * j + 4) == be_u32(c[j / 8][j % 8]),
    decreases n,
{
    lemma_coords_bytes_len(c, n - 1);
    if j < n - 1 {
        lemma_coords_bytes(c, n - 1, j);
        assert(coords_bytes(c, n).subrange(4 * j, 4 * j + 4) =~= coords_bytes(c, n - 1).subrange(
            4 * j,
            4 * j + 4,
        ));
    } else {
        assert(coords_bytes(c, n).subrange(4 * j, 4 * j + 4) =~= be_u32(c[j / 8][j % 8]));
    }
}

proof fn lemma_coords_bytes_len(c: [[u32; K_MAX]; MAX_SLICES], n: int)
    ensures
        n >= 0 ==> coords_bytes(c, n).len() == 4 * n,
    decreases n,
{
    if n > 0 {
        lemma_coords_bytes_len(c, n - 1);
    }
}

/// The StateResponse body of `id` and `snap` is 533 bytes: the id (four big-endian bytes),
/// the number of active facets, the sixteen facet dimensions as they stand in the snapshot,
/// then every coordinate `[s][k]` as four big-endian bytes at offset `21 + 32 s + 4 k`.
pub proof fn lemma_state_response_layout(id: u32, snap: EntitySnapshot)
    ensures
        state_response_bytes(id, snap).len() == 533,
        u32_of_be(state_response_bytes(id, snap).subrange(0, 4)) == id,
        state_response_bytes(id, snap)[4] == snap.num_slices,
        forall|i: int| 0 <= i < MAX_SLICES ==> #[trigger] state_response_bytes(id, snap)[5 + i]
            == snap.slice_dims[i],
        forall|s: int, k: int|
            0 <= s < MAX_SLICES && 0 <= k < K_MAX ==> u32_of_be(
                #[trigger] state_response_bytes(id, snap).subrange(21 + 32 * s + 4 * k, 25 + 32 * s + 4 * k),
            ) == snap.coords[s][k],
{
    let b = state_response_bytes(id, snap);
    let head = be_u32(id) + seq![snap.num_slices] + snap.slice_dims@;
    lemma_coords_bytes_len(snap.coords, 128);
    assert(b == head + coords_bytes(snap.coords, 128));
    assert(b.subrange(0, 4) =~= be_u32(id));
    lemma_be_u32_round_trip(id);
    assert forall|s: int, k: int| 0 <= s < MAX_SLICES && 0 <= k < K_MAX implies u32_of_be(
        #[trigger] b.subrange(21 + 32 * s + 4 * k, 25 + 32 * s + 4 * k),
    ) == snap.coords[s][k] by {
        let j = 8 * s + k;
        lemma_coords_bytes(snap.coords, 128, j);
        assert(j / 8 == s && j % 8 == k);
        assert(b.subrange(21 + 32 * s + 4 * k, 25 + 32 * s + 4 * k) =~= coords_bytes(
            snap.coords,
            128,
        ).subrange(4 * j, 4 * j + 4));
        lemma_be_u32_round_trip(snap.coords[s][k]);
    }
}

/// Encodes a StateResponse body.
pub fn encode_state_response(id: u32, snap: &EntitySnapshot) -> (r: Vec<u8>)
    ensures
        r@ == state_response_bytes(id, *snap),
        r@.len() == 533,
        u32_of_be(r@.subrange(0, 4)) == id,
        r@[4] == snap.num_slices,
        forall|i: int| 0 <= i < MAX_SLICES ==> #[trigger] r@[5 + i] == snap.slice_dims[i],
        forall|s: int, k: int|
            0 <= s < MAX_SLICES && 0 <= k < K_MAX ==> u32_of_be(
                #[trigger] r@.subrange(21 + 32 * s + 4 * k, 25 + 32 * s + 4 * k),
            ) == snap.coords[s][k],
{
    proof {
        lemma_state_response_layout(id, *snap);
    }
    let mut b: Vec<u8> = Vec::new();
    push_be_u32(&mut b, id);
    b.push(snap.num_slices);
    let ghost head = b@;
    let mut i: usize = 0;
    while i < MAX_SLICES
        invariant
            i <= MAX_SLICES,
            b@ == head + snap.slice_dims@.subrange(0, i as int),
        decreases MAX_SLICES - i,
    {
        b.push(snap.slice_dims[i]);
        i = i + 1;
        assert(b@ =~= head + snap.slice_dims@.subrange(0, i as int));
    }
    assert(snap.slice_dims@.subrange(0, MAX_SLICES as int) =~= snap.slice_dims@);
    let ghost head2 = b@;
    let mut s: usize = 0;
    while s < MAX_SLICES
        invariant
            s <= MAX_SLICES,
            b@ == head2 + coords_bytes(snap.coords, 8 * s),
        decreases MAX_SLICES - s,
    {
        let mut k: usize = 0;
        while k < K_MAX
            invariant
                s < MAX_SLICES,
                k <= K_MAX,
                b@ == head2 + coords_bytes(snap.coords, 8 * s + k),
            decreases K_MAX - k,
        {
            push_be_u32(&mut b, snap.coords[s][k]);
            k = k + 1;
            assert((8 * s + k - 1) / 8 == s as int && (8 * s + k - 1) % 8 == k - 1);
        }
        s = s + 1;
    }
    b
}

/// The initial signal of entity `i` in a CascadeRun: the value of the last shock naming it,
/// zero when none does.
pub open spec fn shock_value(initial: Seq<(u32, u32)>, i: int) -> u32
    decreases initial.len(),
{
    if initial.len() == 0 {
        0
    } else if initial.last().0 as int == i {
        initial.last().1
    } else {
        shock_value(initial.drop_last(), i)
    }
}

/// The initial signal vector of a CascadeRun over `n` entities (as `f32` bits); shocks
/// naming an entity outside `0..n` are ignored.
pub fn shock_vector(n: u32, initial: &[(u32, u32)]) -> (r: Vec<u32>)
    ensures
        r@.len() == n,
        forall|i: int| 0 <= i < n ==> #[trigger] r@[i] == shock_value(initial@, i),
{
    let n_us = n as usize;
    let mut v: Vec<u32> = Vec::new();
    let mut i: usize = 0;
    while i < n_us
        invariant
            n_us == n,
            i <= n_us,
            v@.len() == i,
            forall|k: int| 0 <= k < i ==> #[trigger] v@[k] == 0,
        decreases n_us - i,
    {
        v.push(0);
        i = i + 1;
    }
    let mut j: usize = 0;
    while j < initial.len()
        invariant
            n_us == n,
            j <= initial@.len(),
            v@.len() == n,
            forall|k: int| 0 <= k < n ==> #[trigger] v@[k] == shock_value(initial@.take(j as int), k),
        decreases initial@.len() - j,
    {
        let (id, val) = initial[j];
        if (id as usize) < n_us {
            v.set(id as usize, val);
        }
        j = j + 1;
        assert(initial@.take(j as int).drop_last() =~= initial@.take(j - 1));
    }
    assert(initial@.take(initial@.len() as int) =~= initial@);
    v
}

/// Applying a StateUpdate body to the entity pool is allowed: when the body names an entity
/// of the pool, that entity's ring has room for one more event.
pub open spec fn state_update_fits(entities: Seq<Entity>, body: Seq<u8>) -> bool {
    match state_update_decoding(body) {
        Some((id, _)) => (id as int) < entities.len() ==> ring_count(
            next_head(entities[id as int].ring_head),
            entities[id as int].ring_tail,
        ) < DELTA_RING_CAPACITY,
        None => true,
    }
}

/// Handles a StateUpdate body: decodes it and, when it names an entity of the pool, writes
/// the event into that entity's ring; a malformed body or an unknown id changes nothing.
/// The reply is always an empty Heartbeat (acknowledgement).
pub fn process_state_update(entities: &mut Vec<Entity>, body: &[u8]) -> (r: Frame)
    requires
        state_update_fits(old(entities)@, body@),
    ensures
        r@ == (FrameModel {
            version: FRAME_VERSION,
            frame_type: FrameType::Heartbeat,
            body: Seq::empty(),
        }),
        final(entities)@.len() == old(entities)@.len(),
        match state_update_decoding(body@) {
            Some((id, ev)) => forall|i: int|
                0 <= i < old(entities)@.len() ==> if i == id as int {
                    &&& final(entities)@[i].same_except_ring(&old(entities)@[i])
                    &&& final(entities)@[i].delta_ring@ == old(entities)@[i].delta_ring@.update(
                        ring_slot(old(entities)@[i].ring_head as int),
                        ev,
                    )
                    &&& final(entities)@[i].ring_head == next_head(old(entities)@[i].ring_head)
                    &&& ring_count(old(entities)@[i].ring_head, old(entities)@[i].ring_tail) + 1
                        < DELTA_RING_CAPACITY ==> final(entities)@[i].pending()
                        =~= old(entities)@[i].pending().push(ev)
                } else {
                    #[trigger] final(entities)@[i] == old(entities)@[i]
                },
            None => final(entities)@ == old(entities)@,
        },
{
    if let Some((id, ev)) = decode_state_update(body) {
        if (id as usize) < entities.len() {
            entities[id as usize].apply_delta_singlethreaded(ev);
        }
    }
    Frame::new(FrameType::Heartbeat, Vec::new())
}

/// What handling a frame takes beyond the verified steps.
pub enum FrameAction {
    /// The reply is ready.
    Reply(Frame),
    /// Reply with the state of this entity (a StateResponse).
    Query(u32),
    /// Run this cascade and reply with its results (a CascadeResult).
    Cascade(CascadeRunRequest),
    /// Reply with the snapshot path (a SnapshotResp).
    Snapshot,
}

/// An empty reply of type `ft`.
pub open spec fn empty_reply(ft: FrameType) -> FrameModel {
    FrameModel { version: FRAME_VERSION, frame_type: ft, body: Seq::empty() }
}

/// Handles the verified part of one frame against the entity pool.
///
/// - StateUpdate: applied as `process_state_update` does; the reply is an empty Heartbeat.
/// - StateQuery: the queried id when it names an entity of the pool, else an empty StateResponse.
/// - CascadeRun: the decoded request, else (malformed body) an empty CascadeResult.
/// - SnapshotReq: the snapshot step.
/// - any other type: an empty Heartbeat.
pub fn route_frame(entities: &mut Vec<Entity>, frame: &Frame) -> (r: FrameAction)
    requires
        frame.frame_type == FrameType::StateUpdate ==> state_update_fits(
            old(entities)@,
            frame.body@,
        ),
    ensures
        frame.frame_type != FrameType::StateUpdate ==> final(entities)@ == old(entities)@,
        match frame.frame_type {
            FrameType::StateUpdate => r matches FrameAction::Reply(f) && f@ == empty_reply(
                FrameType::Heartbeat,
            ) && final(entities)@.len() == old(entities)@.len() && match state_update_decoding(
                frame.body@,
            ) {
                Some((id, ev)) => forall|i: int|
                    0 <= i < old(entities)@.len() ==> if i == id as int {
                        &&& final(entities)@[i].same_except_ring(&old(entities)@[i])
                        &&& final(entities)@[i].delta_ring@ == old(entities)@[i].delta_ring@.update(
                            ring_slot(old(entities)@[i].ring_head as int),
                            ev,
                        )
                        &&& final(entities)@[i].ring_head == next_head(old(entities)@[i].ring_head)
                    } else {
                        #[trigger] final(entities)@[i] == old(entities)@[i]
                    },
                None => final(entities)@ == old(entities)@,
            },
            FrameType::StateQuery => if (query_id_of(frame.body@) as int) < old(entities)@.len() {
                r == FrameAction::Query(query_id_of(frame.body@))
            } else {
                r matches FrameAction::Reply(f) && f@ == empty_reply(FrameType::StateResponse)
            },
            FrameType::CascadeRun => match cascade_run_decoding(frame.body@) {
                Some(req) => r matches FrameAction::Cascade(c) && cascade_run_view(Some(c)) == Some(
                    req,
                ),
                None => r matches FrameAction::Reply(f) && f@ == empty_reply(
                    FrameType::CascadeResult,
                ),
            },
            FrameType::SnapshotReq => r == FrameAction::Snapshot,
            _ => r matches FrameAction::Reply(f) && f@ == empty_reply(FrameType::Heartbeat),
        },
{
    match frame.frame_type {
        FrameType::StateUpdate => FrameAction::Reply(process_state_update(entities, &frame.body)),
        FrameType::StateQuery => {
            let id = state_query_id(&frame.body);
            if (id as usize) < entities.len() {
                FrameAction::Query(id)
            } else {
                FrameAction::Reply(Frame::new(FrameType::StateResponse, Vec::new()))
            }
        },
        FrameType::CascadeRun => match decode_cascade_run(&frame.body) {
            Some(req) => FrameAction::Cascade(req),
            None => FrameAction::Reply(Frame::new(FrameType::CascadeResult, Vec::new())),
        },
        FrameType::SnapshotReq => FrameAction::Snapshot,
        _ => FrameAction::Reply(Frame::new(FrameType::Heartbeat, Vec::new())),
    }
}

} // verus!

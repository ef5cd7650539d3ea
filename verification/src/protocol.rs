//! Length-prefixed binary frame protocol.
//!
//! A frame is `[4B len BE][version 1B][frame_type 1B][body]` with
//! `len = 2 + body.len()`; a frame whose `len` exceeds `MAX_FRAME_LEN` is
//! refused. Every multi-byte field is big-endian.

use vstd::prelude::*;
use crate::cascade::CascadeResult;
use crate::entity::DeltaEvent;
use crate::wire::{
    be_u16, be_u32, be_u64, lemma_be_u16_of_bytes, lemma_be_u16_round_trip,
    lemma_be_u32_of_bytes, lemma_be_u32_round_trip, lemma_be_u64_of_bytes,
    lemma_be_u64_round_trip, push_all, push_be_u16, push_be_u32, push_be_u64, read_be_u16,
    read_be_u32, read_be_u64, u16_of_be, u32_of_be, u64_of_be,
};

verus! {

/// Protocol version.
pub const FRAME_VERSION: u8 = 1;

/// Largest accepted frame payload (`len` field).
pub const MAX_FRAME_LEN: usize = 65_536;

/// Frame types.
#[derive(Clone, Copy, Debug, PartialEq, Eq, Structural)]
pub enum FrameType {
    StateUpdate,
    StateQuery,
    StateResponse,
    CascadeRun,
    CascadeResult,
    SnapshotReq,
    SnapshotResp,
    Heartbeat,
}

/// The wire byte of a frame type.
pub open spec fn frame_type_code(ft: FrameType) -> u8 {
    match ft {
        FrameType::StateUpdate => 0x01,
        FrameType::StateQuery => 0x02,
        FrameType::StateResponse => 0x03,
        FrameType::CascadeRun => 0x04,
        FrameType::CascadeResult => 0x05,
        FrameType::SnapshotReq => 0x06,
        FrameType::SnapshotResp => 0x07,
        FrameType::Heartbeat => 0xFF,
    }
}

/// The frame type a wire byte names, if any.
pub open spec fn frame_type_of_code(v: u8) -> Option<FrameType> {
    if v == 0x01 {
        Some(FrameType::StateUpdate)
    } else if v == 0x02 {
        Some(FrameType::StateQuery)
    } else if v == 0x03 {
        Some(FrameType::StateResponse)
    } else if v == 0x04 {
        Some(FrameType::CascadeRun)
    } else if v == 0x05 {
        Some(FrameType::CascadeResult)
    } else if v == 0x06 {
        Some(FrameType::SnapshotReq)
    } else if v == 0x07 {
        Some(FrameType::SnapshotResp)
    } else if v == 0xFF {
        Some(FrameType::Heartbeat)
    } else {
        None
    }
}

impl FrameType {
    /// The frame type named by a wire byte.
    pub fn from_u8(v: u8) -> (r: Option<Self>)
        ensures
            r == frame_type_of_code(v),
    {
        match v {
            0x01 => Some(FrameType::StateUpdate),
            0x02 => Some(FrameType::StateQuery),
            0x03 => Some(FrameType::StateResponse),
            0x04 => Some(FrameType::CascadeRun),
            0x05 => Some(FrameType::CascadeResult),
            0x06 => Some(FrameType::SnapshotReq),
            0x07 => Some(FrameType::SnapshotResp),
            0xFF => Some(FrameType::Heartbeat),
            _ => None,
        }
    }

    /// The wire byte of this frame type.
    pub fn code(self) -> (r: u8)
        ensures
            r == frame_type_code(self),
    {
        match self {
            FrameType::StateUpdate => 0x01,
            FrameType::StateQuery => 0x02,
            FrameType::StateResponse => 0x03,
            FrameType::CascadeRun => 0x04,
            FrameType::CascadeResult => 0x05,
            FrameType::SnapshotReq => 0x06,
            FrameType::SnapshotResp => 0x07,
            FrameType::Heartbeat => 0xFF,
        }
    }
}

/// Every frame type's byte names it back, and a byte names a type only if it is that type's byte.
pub proof fn lemma_frame_type_code_bijection(ft: FrameType, v: u8)
    ensures
        frame_type_of_code(frame_type_code(ft)) == Some(ft),
        frame_type_of_code(v) == Some(ft) ==> frame_type_code(ft) == v,
{
}

/// Frame decoding errors.
#[derive(Debug, PartialEq, Eq, Structural)]
pub enum FrameError {
    /// The payload length exceeds `MAX_FRAME_LEN`.
    TooLarge { len: usize },
    /// Not enough bytes.
    UnexpectedEof,
    /// Unknown frame type byte.
    UnknownFrameType(u8),
    /// Version mismatch.
    BadVersion(u8),
}

/// One complete frame.
#[derive(Clone, Debug, PartialEq, Eq)]
pub struct Frame {
    /// Protocol version.
    pub version: u8,
    /// Frame type.
    pub frame_type: FrameType,
    /// Payload (big-endian business fields).
    pub body: Vec<u8>,
}

/// The mathematical content of a frame.
pub struct FrameModel {
    pub version: u8,
    pub frame_type: FrameType,
    pub body: Seq<u8>,
}

impl View for Frame {
    type V = FrameModel;

    open spec fn view(&self) -> FrameModel {
        FrameModel { version: self.version, frame_type: self.frame_type, body: self.body@ }
    }
}

/// The wire bytes of a frame: length prefix, version, type byte, body.
pub open spec fn frame_bytes(f: FrameModel) -> Seq<u8> {
    be_u32((2 + f.body.len()) as u32) + seq![f.version, frame_type_code(f.frame_type)] + f.body
}

/// The payload length a buffer announces in its first four bytes.
pub open spec fn announced_len(buf: Seq<u8>) -> int {
    u32_of_be(buf) as int
}

/// What decoding a buffer gives: the first frame it holds, or why it holds none.
///
/// An empty payload is reported as `UnexpectedEof`; a one-byte payload is checked for its
/// version first and, when the version is right, reported as `UnexpectedEof` too.
pub open spec fn frame_decoding(buf: Seq<u8>) -> Result<FrameModel, FrameError> {
    if buf.len() < 4 {
        Err(FrameError::UnexpectedEof)
    } else if announced_len(buf) > MAX_FRAME_LEN {
        Err(FrameError::TooLarge { len: announced_len(buf) as usize })
    } else if buf.len() < 4 + announced_len(buf) || announced_len(buf) == 0 {
        Err(FrameError::UnexpectedEof)
    } else if buf[4] != FRAME_VERSION {
        Err(FrameError::BadVersion(buf[4]))
    } else if announced_len(buf) < 2 {
        Err(FrameError::UnexpectedEof)
    } else {
        match frame_type_of_code(buf[5]) {
            None => Err(FrameError::UnknownFrameType(buf[5])),
            Some(ft) => Ok(
                FrameModel {
                    version: buf[4],
                    frame_type: ft,
                    body: buf.subrange(6, 4 + announced_len(buf)),
                },
            ),
        }
    }
}

/// The wire byte of every frame type is fixed: `StateUpdate` 0x01, `StateQuery` 0x02,
/// `StateResponse` 0x03, `CascadeRun` 0x04, `CascadeResult` 0x05, `SnapshotReq` 0x06,
/// `SnapshotResp` 0x07, `Heartbeat` 0xFF. An encoded frame carries that byte after its version,
/// and a decoded frame has the type whose byte it carries.
pub proof fn lemma_frame_type_wire_bytes(f: FrameModel, buf: Seq<u8>)
    ensures
        frame_bytes(f)[5] == match f.frame_type {
            FrameType::StateUpdate => 0x01u8,
            FrameType::StateQuery => 0x02u8,
            FrameType::StateResponse => 0x03u8,
            FrameType::CascadeRun => 0x04u8,
            FrameType::CascadeResult => 0x05u8,
            FrameType::SnapshotReq => 0x06u8,
            FrameType::SnapshotResp => 0x07u8,
            FrameType::Heartbeat => 0xFFu8,
        },
        frame_decoding(buf) is Ok ==> frame_decoding(buf)->Ok_0.frame_type == if buf[5] == 0x01 {
            FrameType::StateUpdate
        } else if buf[5] == 0x02 {
            FrameType::StateQuery
        } else if buf[5] == 0x03 {
            FrameType::StateResponse
        } else if buf[5] == 0x04 {
            FrameType::CascadeRun
        } else if buf[5] == 0x05 {
            FrameType::CascadeResult
        } else if buf[5] == 0x06 {
            FrameType::SnapshotReq
        } else if buf[5] == 0x07 {
            FrameType::SnapshotResp
        } else {
            FrameType::Heartbeat
        },
        frame_decoding(buf) is Ok ==> (buf[5] == 0x01 || buf[5] == 0x02 || buf[5] == 0x03 || buf[5]
            == 0x04 || buf[5] == 0x05 || buf[5] == 0x06 || buf[5] == 0x07 || buf[5] == 0xFF),
{
}

/// The mathematical content of a decoding result.
pub open spec fn frame_result_view(r: Result<Frame, FrameError>) -> Result<FrameModel, FrameError> {
    match r {
        Ok(f) => Ok(f@),
        Err(e) => Err(e),
    }
}

impl Frame {
    /// Builds a frame of the current protocol version.
    pub fn new(ft: FrameType, body: Vec<u8>) -> (r: Self)
        ensures
            r@ == (FrameModel { version: FRAME_VERSION, frame_type: ft, body: body@ }),
    {
        Frame { version: FRAME_VERSION, frame_type: ft, body }
    }

    /// Encodes as `[4B len BE][version][frame_type][body]`.
    pub fn encode(&self) -> (r: Vec<u8>)
        ensures
            r@ == frame_bytes(self@),
    {
        let n = self.body.len();
        let payload_len: u32 = (n as u32).wrapping_add(2);
        assert(payload_len == (2 + n) as u32) by (bit_vector)
            requires
                payload_len == (n as u32).wrapping_add(2),
        ;
        let mut out: Vec<u8> = Vec::new();
        push_be_u32(&mut out, payload_len);
        out.push(self.version);
        out.push(self.frame_type.code());
        push_all(&mut out, self.body.as_slice());
        out
    }

    /// Decodes the frame at the start of `buf` (length prefix included).
    pub fn decode(buf: &[u8]) -> (r: Result<Self, FrameError>)
        ensures
            frame_result_view(r) == frame_decoding(buf@),
    {
        if buf.len() < 4 {
            return Err(FrameError::UnexpectedEof);
        }
        let len32 = read_be_u32(buf, 0);
        assert(buf@.subrange(0, 4)[0] == buf@[0]);
        assert(len32 == u32_of_be(buf@));
        let len = len32 as usize;
        if len > MAX_FRAME_LEN {
            return Err(FrameError::TooLarge { len });
        }
        if buf.len() - 4 < len || len == 0 {
            return Err(FrameError::UnexpectedEof);
        }
        let version = buf[4];
        if version != FRAME_VERSION {
            return Err(FrameError::BadVersion(version));
        }
        if len < 2 {
            return Err(FrameError::UnexpectedEof);
        }
        let t = buf[5];
        match FrameType::from_u8(t) {
            None => Err(FrameError::UnknownFrameType(t)),
            Some(ft) => {
                let mut body: Vec<u8> = Vec::new();
                push_all(&mut body, &buf[6..4 + len]);
                assert(body@ =~= buf@.subrange(6, 4 + announced_len(buf@)));
                Ok(Frame { version, frame_type: ft, body })
            },
        }
    }
}

/// Decoding the bytes of a current-version frame whose payload fits gives back that frame.
pub proof fn lemma_frame_round_trip(f: FrameModel)
    requires
        f.version == FRAME_VERSION,
        2 + f.body.len() <= MAX_FRAME_LEN,
    ensures
        frame_decoding(frame_bytes(f)) == Ok::<FrameModel, FrameError>(f),
{
    let len = (2 + f.body.len()) as u32;
    lemma_be_u32_round_trip(len);
    let b = frame_bytes(f);
    assert(b.subrange(0, 4) =~= be_u32(len));
    assert(u32_of_be(b) == u32_of_be(be_u32(len)));
    lemma_frame_type_code_bijection(f.frame_type, 0);
    assert(b.subrange(6, 4 + announced_len(b)) =~= f.body);
}

/// A frame of another version is refused with that version.
pub proof fn lemma_frame_bad_version(f: FrameModel)
    requires
        f.version != FRAME_VERSION,
        2 + f.body.len() <= MAX_FRAME_LEN,
    ensures
        frame_decoding(frame_bytes(f)) == Err::<FrameModel, FrameError>(
            FrameError::BadVersion(f.version),
        ),
{
    let len = (2 + f.body.len()) as u32;
    lemma_be_u32_round_trip(len);
    let b = frame_bytes(f);
    assert(b.subrange(0, 4) =~= be_u32(len));
    assert(u32_of_be(b) == u32_of_be(be_u32(len)));
}

/// A successfully decoded frame re-encodes to exactly the bytes it was read from.
pub proof fn lemma_frame_decode_encode(buf: Seq<u8>)
    requires
        frame_decoding(buf) is Ok,
    ensures
        frame_bytes(frame_decoding(buf)->Ok_0) =~= buf.subrange(0, 4 + announced_len(buf)),
{
    let f = frame_decoding(buf)->Ok_0;
    lemma_be_u32_of_bytes(buf.subrange(0, 4));
    assert(u32_of_be(buf.subrange(0, 4)) == u32_of_be(buf));
    assert((2 + f.body.len()) as u32 == u32_of_be(buf));
    lemma_frame_type_code_bijection(f.frame_type, buf[5]);
}

// ---- Body codecs (big-endian) ----

/// StateUpdate body: `entity_id u32 | timestamp u64 | slice_mask u16 | endpoint u8 | delta f32` (19 bytes).
pub open spec fn state_update_bytes(entity_id: u32, ev: DeltaEvent) -> Seq<u8> {
    be_u32(entity_id) + be_u64(ev.timestamp_us) + be_u16(ev.slice_mask) + seq![ev.endpoint_idx]
        + be_u32(ev.delta_bits)
}

/// What decoding a StateUpdate body gives.
pub open spec fn state_update_decoding(body: Seq<u8>) -> Option<(u32, DeltaEvent)> {
    if body.len() < 19 {
        None
    } else {
        Some(
            (
                u32_of_be(body.subrange(0, 4)),
                DeltaEvent {
                    timestamp_us: u64_of_be(body.subrange(4, 12)),
                    slice_mask: u16_of_be(body.subrange(12, 14)),
                    endpoint_idx: body[14],
                    delta_bits: u32_of_be(body.subrange(15, 19)),
                },
            ),
        )
    }
}

/// Encodes a StateUpdate body.
pub fn encode_state_update(entity_id: u32, ev: &DeltaEvent) -> (r: Vec<u8>)
    ensures
        r@ == state_update_bytes(entity_id, *ev),
{
    let mut b: Vec<u8> = Vec::new();
    push_be_u32(&mut b, entity_id);
    push_be_u64(&mut b, ev.timestamp_us);
    push_be_u16(&mut b, ev.slice_mask);
    b.push(ev.endpoint_idx);
    push_be_u32(&mut b, ev.delta_bits);
    b
}

/// Decodes a StateUpdate body; `None` when it is shorter than 19 bytes.
pub fn decode_state_update(body: &[u8]) -> (r: Option<(u32, DeltaEvent)>)
    ensures
        r == state_update_decoding(body@),
{
    if body.len() < 19 {
        return None;
    }
    let entity_id = read_be_u32(body, 0);
    let timestamp_us = read_be_u64(body, 4);
    let slice_mask = read_be_u16(body, 12);
    let endpoint_idx = body[14];
    let delta_bits = read_be_u32(body, 15);
    Some((entity_id, DeltaEvent::new(timestamp_us, slice_mask, endpoint_idx, delta_bits)))
}

/// Decoding an encoded StateUpdate body gives back the entity id and the event.
pub proof fn lemma_state_update_round_trip(entity_id: u32, ev: DeltaEvent)
    ensures
        state_update_decoding(state_update_bytes(entity_id, ev)) == Some((entity_id, ev)),
{
    let b = state_update_bytes(entity_id, ev);
    lemma_be_u32_round_trip(entity_id);
    lemma_be_u64_round_trip(ev.timestamp_us);
    lemma_be_u16_round_trip(ev.slice_mask);
    lemma_be_u32_round_trip(ev.delta_bits);
    assert(b.subrange(0, 4) =~= be_u32(entity_id));
    assert(b.subrange(4, 12) =~= be_u64(ev.timestamp_us));
    assert(b.subrange(12, 14) =~= be_u16(ev.slice_mask));
    assert(b.subrange(15, 19) =~= be_u32(ev.delta_bits));
}

/// A decoded StateUpdate body re-encodes to its first 19 bytes.
pub proof fn lemma_state_update_decode_encode(body: Seq<u8>)
    requires
        body.len() >= 19,
    ensures
        state_update_bytes(
            state_update_decoding(body).unwrap().0,
            state_update_decoding(body).unwrap().1,
        ) =~= body.subrange(0, 19),
{
    lemma_be_u32_of_bytes(body.subrange(0, 4));
    lemma_be_u64_of_bytes(body.subrange(4, 12));
    lemma_be_u16_of_bytes(body.subrange(12, 14));
    lemma_be_u32_of_bytes(body.subrange(15, 19));
}

/// CascadeRun request: `(theta bits, max_hops, initial shocks [(entity_id, value bits)])`.
pub type CascadeRunRequest = (u32, u8, Vec<(u32, u32)>);

/// The bytes of a list of `(entity_id, value)` shocks, eight per entry.
pub open spec fn shock_bytes(s: Seq<(u32, u32)>) -> Seq<u8>
    decreases s.len(),
{
    if s.len() == 0 {
        Seq::empty()
    } else {
        shock_bytes(s.drop_last()) + be_u32(s.last().0) + be_u32(s.last().1)
    }
}

/// CascadeRun body: `theta f32 | max_hops u8 | count u16 | count×(entity_id u32 | value f32)`.
///
/// The count field holds the number of entries modulo 2^16.
pub open spec fn cascade_run_bytes(theta_bits: u32, max_hops: u8, initial: Seq<(u32, u32)>) -> Seq<
    u8,
> {
    be_u32(theta_bits) + seq![max_hops] + be_u16((initial.len() % 0x1_0000) as u16) + shock_bytes(
        initial,
    )
}

/// The `i`-th shock entry of a CascadeRun body.
pub open spec fn shock_at(body: Seq<u8>, i: int) -> (u32, u32) {
    (
        u32_of_be(body.subrange(7 + 8 * i, 7 + 8 * i + 4)),
        u32_of_be(body.subrange(7 + 8 * i + 4, 7 + 8 * i + 8)),
    )
}

/// What decoding a CascadeRun body gives.
pub open spec fn cascade_run_decoding(body: Seq<u8>) -> Option<(u32, u8, Seq<(u32, u32)>)> {
    if body.len() < 7 {
        None
    } else {
        let count = u16_of_be(body.subrange(5, 7)) as int;
        if body.len() < 7 + 8 * count {
            None
        } else {
            Some(
                (
                    u32_of_be(body.subrange(0, 4)),
                    body[4],
                    Seq::new(count as nat, |i: int| shock_at(body, i)),
                ),
            )
        }
    }
}

/// The mathematical content of a decoded CascadeRun request.
pub open spec fn cascade_run_view(r: Option<CascadeRunRequest>) -> Option<(u32, u8, Seq<(u32, u32)>)> {
    match r {
        Some((t, h, v)) => Some((t, h, v@)),
        None => None,
    }
}

proof fn lemma_shock_bytes_len(s: Seq<(u32, u32)>)
    ensures
        shock_bytes(s).len() == 8 * s.len(),
    decreases s.len(),
{
    if s.len() > 0 {
        lemma_shock_bytes_len(s.drop_last());
    }
}

/// Encodes a CascadeRun body.
pub fn encode_cascade_run(theta_bits: u32, max_hops: u8, initial: &[(u32, u32)]) -> (r: Vec<u8>)
    ensures
        r@ == cascade_run_bytes(theta_bits, max_hops, initial@),
{
    let mut b: Vec<u8> = Vec::new();
    push_be_u32(&mut b, theta_bits);
    b.push(max_hops);
    push_be_u16(&mut b, (initial.len() % 0x1_0000) as u16);
    let ghost head = b@;
    let mut i: usize = 0;
    while i < initial.len()
        invariant
            i <= initial@.len(),
            b@ == head + shock_bytes(initial@.subrange(0, i as int)),
        decreases initial@.len() - i,
    {
        let (id, v) = initial[i];
        push_be_u32(&mut b, id);
        push_be_u32(&mut b, v);
        i = i + 1;
        assert(initial@.subrange(0, i as int).drop_last() =~= initial@.subrange(0, i - 1));
        assert(b@ =~= head + shock_bytes(initial@.subrange(0, i as int)));
    }
    assert(initial@.subrange(0, initial@.len() as int) =~= initial@);
    b
}

/// Decodes a CascadeRun body; `None` when the header or an announced entry is missing.
pub fn decode_cascade_run(body: &[u8]) -> (r: Option<CascadeRunRequest>)
    ensures
        cascade_run_view(r) == cascade_run_decoding(body@),
{
    if body.len() < 7 {
        return None;
    }
    let theta_bits = read_be_u32(body, 0);
    let max_hops = body[4];
    let count = read_be_u16(body, 5) as usize;
    let mut initial: Vec<(u32, u32)> = Vec::new();
    let mut p: usize = 7;
    let mut i: usize = 0;
    while i < count
        invariant
            7 <= body@.len(),
            count == u16_of_be(body@.subrange(5, 7)),
            i <= count,
            p == 7 + 8 * i,
            p <= body@.len(),
            initial@ =~= Seq::new(i as nat, |j: int| shock_at(body@, j)),
        decreases count - i,
    {
        if body.len() - p < 8 {
            return None;
        }
        let id = read_be_u32(body, p);
        let v = read_be_u32(body, p + 4);
        initial.push((id, v));
        p = p + 8;
        i = i + 1;
    }
    Some((theta_bits, max_hops, initial))
}

/// Decoding an encoded CascadeRun body gives back its fields when the entry count fits in 16 bits.
pub proof fn lemma_cascade_run_round_trip(theta_bits: u32, max_hops: u8, initial: Seq<(u32, u32)>)
    requires
        initial.len() <= 0xFFFF,
    ensures
        cascade_run_decoding(cascade_run_bytes(theta_bits, max_hops, initial)) == Some(
            (theta_bits, max_hops, initial),
        ),
{
    let b = cascade_run_bytes(theta_bits, max_hops, initial);
    let count = initial.len() as u16;
    lemma_be_u32_round_trip(theta_bits);
    lemma_be_u16_round_trip(count);
    lemma_shock_bytes_len(initial);
    assert(b.subrange(0, 4) =~= be_u32(theta_bits));
    assert(b.subrange(5, 7) =~= be_u16(count));
    assert(b.subrange(7, b.len() as int) =~= shock_bytes(initial));
    assert forall|i: int| 0 <= i < initial.len() implies #[trigger] shock_at(b, i) == initial[i] by {
        lemma_shock_bytes_entry(initial, i);
        assert(b.subrange(7 + 8 * i, 7 + 8 * i + 4) =~= shock_bytes(initial).subrange(
            8 * i,
            8 * i + 4,
        ));
        assert(b.subrange(7 + 8 * i + 4, 7 + 8 * i + 8) =~= shock_bytes(initial).subrange(
            8 * i + 4,
            8 * i + 8,
        ));
        lemma_be_u32_round_trip(initial[i].0);
        lemma_be_u32_round_trip(initial[i].1);
    }
    assert(Seq::new(count as nat, |i: int| shock_at(b, i)) =~= initial);
}

/// Entry `i` of the shock bytes is the two big-endian words of shock `i`.
proof fn lemma_shock_bytes_entry(s: Seq<(u32, u32)>, i: int)
    requires
        0 <= i < s.len(),
    ensures
        shock_bytes(s).len() == 8 * s.len(),
        shock_bytes(s).subrange(8 * i, 8 * i + 4) =~= be_u32(s[i].0),
        shock_bytes(s).subrange(8 * i + 4, 8 * i + 8) =~= be_u32(s[i].1),
    decreases s.len(),
{
    lemma_shock_bytes_len(s);
    lemma_shock_bytes_len(s.drop_last());
    if i < s.len() - 1 {
        lemma_shock_bytes_entry(s.drop_last(), i);
        assert(shock_bytes(s).subrange(8 * i, 8 * i + 4) =~= shock_bytes(s.drop_last()).subrange(
            8 * i,
            8 * i + 4,
        ));
        assert(shock_bytes(s).subrange(8 * i + 4, 8 * i + 8) =~= shock_bytes(
            s.drop_last(),
        ).subrange(8 * i + 4, 8 * i + 8));
    }
}

/// One CascadeResult entry: `entity_id u32 | confidence f32 | hop u8 | lag u32` (13 bytes).
///
/// The hop is written modulo 2^8.
pub open spec fn result_entry_bytes(r: CascadeResult) -> Seq<u8> {
    be_u32(r.entity_id) + be_u32(r.confidence_bits) + seq![(r.hop % 0x100) as u8] + be_u32(r.lag_us)
}

/// The bytes of a list of cascade results, thirteen per entry.
pub open spec fn results_bytes(s: Seq<CascadeResult>) -> Seq<u8>
    decreases s.len(),
{
    if s.len() == 0 {
        Seq::empty()
    } else {
        results_bytes(s.drop_last()) + result_entry_bytes(s.last())
    }
}

/// CascadeResult body: `count u16 | count×entry`; the count field holds the number of results modulo 2^16.
pub open spec fn cascade_results_bytes(s: Seq<CascadeResult>) -> Seq<u8> {
    be_u16((s.len() % 0x1_0000) as u16) + results_bytes(s)
}

/// The `i`-th entry of a CascadeResult body.
pub open spec fn result_at(body: Seq<u8>, i: int) -> CascadeResult {
    CascadeResult {
        entity_id: u32_of_be(body.subrange(2 + 13 * i, 2 + 13 * i + 4)),
        confidence_bits: u32_of_be(body.subrange(2 + 13 * i + 4, 2 + 13 * i + 8)),
        hop: body[2 + 13 * i + 8] as u32,
        lag_us: u32_of_be(body.subrange(2 + 13 * i + 9, 2 + 13 * i + 13)),
    }
}

/// What decoding a CascadeResult body gives.
pub open spec fn cascade_results_decoding(body: Seq<u8>) -> Option<Seq<CascadeResult>> {
    if body.len() < 2 {
        None
    } else {
        let count = u16_of_be(body.subrange(0, 2)) as int;
        if body.len() < 2 + 13 * count {
            None
        } else {
            Some(Seq::new(count as nat, |i: int| result_at(body, i)))
        }
    }
}

/// The mathematical content of decoded cascade results.
pub open spec fn cascade_results_view(r: Option<Vec<CascadeResult>>) -> Option<Seq<CascadeResult>> {
    match r {
        Some(v) => Some(v@),
        None => None,
    }
}

proof fn lemma_results_bytes_len(s: Seq<CascadeResult>)
    ensures
        results_bytes(s).len() == 13 * s.len(),
    decreases s.len(),
{
    if s.len() > 0 {
        lemma_results_bytes_len(s.drop_last());
    }
}

/// Entry `i` of the result bytes is the encoding of result `i`.
proof fn lemma_results_bytes_entry(s: Seq<CascadeResult>, i: int)
    requires
        0 <= i < s.len(),
    ensures
        results_bytes(s).len() == 13 * s.len(),
        results_bytes(s).subrange(13 * i, 13 * i + 13) =~= result_entry_bytes(s[i]),
    decreases s.len(),
{
    lemma_results_bytes_len(s);
    lemma_results_bytes_len(s.drop_last());
    if i < s.len() - 1 {
        lemma_results_bytes_entry(s.drop_last(), i);
        assert(results_bytes(s).subrange(13 * i, 13 * i + 13) =~= results_bytes(
            s.drop_last(),
        ).subrange(13 * i, 13 * i + 13));
    }
}

/// Encodes a CascadeResult body.
pub fn encode_cascade_results(results: &[CascadeResult]) -> (r: Vec<u8>)
    ensures
        r@ == cascade_results_bytes(results@),
{
    let mut b: Vec<u8> = Vec::new();
    push_be_u16(&mut b, (results.len() % 0x1_0000) as u16);
    let ghost head = b@;
    let mut i: usize = 0;
    while i < results.len()
        invariant
            i <= results@.len(),
            b@ == head + results_bytes(results@.subrange(0, i as int)),
        decreases results@.len() - i,
    {
        let r = results[i];
        push_be_u32(&mut b, r.entity_id);
        push_be_u32(&mut b, r.confidence_bits);
        b.push((r.hop % 0x100) as u8);
        push_be_u32(&mut b, r.lag_us);
        i = i + 1;
        assert(results@.subrange(0, i as int).drop_last() =~= results@.subrange(0, i - 1));
        assert(b@ =~= head + results_bytes(results@.subrange(0, i as int)));
    }
    assert(results@.subrange(0, results@.len() as int) =~= results@);
    b
}

/// Decodes a CascadeResult body; `None` when the count or an announced entry is missing.
pub fn decode_cascade_results(body: &[u8]) -> (r: Option<Vec<CascadeResult>>)
    ensures
        cascade_results_view(r) == cascade_results_decoding(body@),
{
    if body.len() < 2 {
        return None;
    }
    let count = read_be_u16(body, 0) as usize;
    let mut out: Vec<CascadeResult> = Vec::new();
    let mut p: usize = 2;
    let mut i: usize = 0;
    while i < count
        invariant
            2 <= body@.len(),
            count == u16_of_be(body@.subrange(0, 2)),
            i <= count,
            p == 2 + 13 * i,
            p <= body@.len(),
            out@ =~= Seq::new(i as nat, |j: int| result_at(body@, j)),
        decreases count - i,
    {
        if body.len() - p < 13 {
            return None;
        }
        let entity_id = read_be_u32(body, p);
        let confidence_bits = read_be_u32(body, p + 4);
        let hop = body[p + 8] as u32;
        let lag_us = read_be_u32(body, p + 9);
        out.push(CascadeResult { entity_id, confidence_bits, hop, lag_us });
        p = p + 13;
        i = i + 1;
    }
    Some(out)
}

/// Decoding encoded cascade results gives them back when there are at most 2^16 − 1
/// of them and every hop fits in a byte.
#[verifier::spinoff_prover]
#[verifier::rlimit(40)]
pub proof fn lemma_cascade_results_round_trip(s: Seq<CascadeResult>)
    requires
        s.len() <= 0xFFFF,
        forall|i: int| 0 <= i < s.len() ==> #[trigger] s[i].hop < 0x100,
    ensures
        cascade_results_decoding(cascade_results_bytes(s)) == Some(s),
{
    let b = cascade_results_bytes(s);
    let count = s.len() as u16;
    lemma_be_u16_round_trip(count);
    lemma_results_bytes_len(s);
    assert(b.subrange(0, 2) =~= be_u16(count));
    assert forall|i: int| 0 <= i < s.len() implies #[trigger] result_at(b, i) == s[i] by {
        lemma_results_bytes_entry(s, i);
        let e = result_entry_bytes(s[i]);
        assert(b.subrange(2 + 13 * i, 2 + 13 * i + 13) =~= e);
        assert(b.subrange(2 + 13 * i, 2 + 13 * i + 4) =~= e.subrange(0, 4));
        assert(e.subrange(0, 4) =~= be_u32(s[i].entity_id));
        assert(b.subrange(2 + 13 * i + 4, 2 + 13 * i + 8) =~= e.subrange(4, 8));
        assert(e.subrange(4, 8) =~= be_u32(s[i].confidence_bits));
        assert(b.subrange(2 + 13 * i + 9, 2 + 13 * i + 13) =~= e.subrange(9, 13));
        assert(e.subrange(9, 13) =~= be_u32(s[i].lag_us));
        assert(b[2 + 13 * i + 8] == e[8]);
        lemma_be_u32_round_trip(s[i].entity_id);
        lemma_be_u32_round_trip(s[i].confidence_bits);
        lemma_be_u32_round_trip(s[i].lag_us);
    }
    assert(Seq::new(count as nat, |i: int| result_at(b, i)) =~= s);
}

} // verus!

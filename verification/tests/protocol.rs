use sigma4_engine::cascade::CascadeResult;
use sigma4_engine::entity::DeltaEvent;
use sigma4_engine::protocol::{
    decode_cascade_results, decode_cascade_run, decode_state_update, encode_cascade_results,
    encode_cascade_run, encode_state_update, Frame, FrameError, FrameType, FRAME_VERSION,
    MAX_FRAME_LEN,
};

fn bits(x: f32) -> u32 {
    x.to_bits()
}

fn val(b: u32) -> f32 {
    f32::from_bits(b)
}

fn shocks(v: &[(u32, f32)]) -> Vec<(u32, u32)> {
    v.iter().map(|&(id, x)| (id, x.to_bits())).collect()
}

fn result(entity_id: u32, confidence: f32, hop: u32, lag_us: u32) -> CascadeResult {
    CascadeResult { entity_id, confidence_bits: confidence.to_bits(), hop, lag_us }
}

#[test]
fn frame_encode_decode_round_trip() {
    let f = Frame::new(FrameType::StateUpdate, vec![0xDE, 0xAD, 0xBE, 0xEF]);
    let enc = f.encode();
    let dec = Frame::decode(&enc).unwrap();
    assert_eq!(dec, f);
}

#[test]
fn frame_all_types_round_trip() {
    for ft in [
        FrameType::StateUpdate,
        FrameType::StateQuery,
        FrameType::StateResponse,
        FrameType::CascadeRun,
        FrameType::CascadeResult,
        FrameType::SnapshotReq,
        FrameType::SnapshotResp,
        FrameType::Heartbeat,
    ] {
        let f = Frame::new(ft, vec![1, 2, 3]);
        assert_eq!(Frame::decode(&f.encode()).unwrap(), f);
    }
}

#[test]
fn oversized_frame_rejected() {
    let mut buf = (70_000u32).to_be_bytes().to_vec();
    buf.extend_from_slice(&[0u8; 8]);
    assert_eq!(Frame::decode(&buf), Err(FrameError::TooLarge { len: 70_000 }));
}

#[test]
fn truncated_frame_rejected() {
    let f = Frame::new(FrameType::Heartbeat, vec![0; 10]);
    let mut enc = f.encode();
    enc.truncate(enc.len() - 5);
    assert_eq!(Frame::decode(&enc), Err(FrameError::UnexpectedEof));
}

#[test]
fn protocol_unknown_frame_type_rejected() {
    let payload = [FRAME_VERSION, 0xAB];
    let mut buf = (payload.len() as u32).to_be_bytes().to_vec();
    buf.extend_from_slice(&payload);
    assert_eq!(Frame::decode(&buf), Err(FrameError::UnknownFrameType(0xAB)));
}

#[test]
fn state_update_body_round_trip() {
    let ev = DeltaEvent::new(0x1122334455, 0x0102, 7, bits(1.5));
    let body = encode_state_update(42, &ev);
    let (id, ev2) = decode_state_update(&body).unwrap();
    assert_eq!(id, 42);
    let got = (ev2.timestamp_us, ev2.slice_mask, ev2.endpoint_idx);
    let want = (ev.timestamp_us, ev.slice_mask, ev.endpoint_idx);
    assert_eq!(got, want);
    assert!((val(ev2.delta_bits) - 1.5).abs() < 1e-6);
}

#[test]
fn cascade_run_body_round_trip() {
    let initial = shocks(&[(0u32, 1.0f32), (3, 0.5), (5, 0.25)]);
    let body = encode_cascade_run(bits(0.1), 5, &initial);
    let (theta, hops, init2) = decode_cascade_run(&body).unwrap();
    assert!((val(theta) - 0.1).abs() < 1e-6);
    assert_eq!(hops, 5);
    assert_eq!(init2, initial);
}

#[test]
fn cascade_results_body_round_trip() {
    let results = vec![result(1, 0.8, 2, 30), result(9, 1.0, 1, 10)];
    let body = encode_cascade_results(&results);
    let dec = decode_cascade_results(&body).unwrap();
    assert_eq!(dec.len(), results.len());
    for (a, b) in dec.iter().zip(results.iter()) {
        assert_eq!(a.entity_id, b.entity_id);
        assert!((val(a.confidence_bits) - val(b.confidence_bits)).abs() < 1e-6);
        assert_eq!(a.hop, b.hop);
        assert_eq!(a.lag_us, b.lag_us);
    }
}

#[test]
fn empty_buffer_returns_err() {
    assert_eq!(Frame::decode(&[]), Err(FrameError::UnexpectedEof));
}

#[test]
fn buffer_shorter_than_length_prefix() {
    assert_eq!(Frame::decode(&[0x00]), Err(FrameError::UnexpectedEof));
}

#[test]
fn buffer_with_len_prefix_only() {
    let buf = [0x00, 0x00, 0x00, 0x07];
    assert_eq!(Frame::decode(&buf), Err(FrameError::UnexpectedEof));
}

#[test]
fn truncated_body_returns_err() {
    let mut buf = (10u32).to_be_bytes().to_vec();
    buf.extend_from_slice(&[1u8; 5]);
    assert_eq!(Frame::decode(&buf), Err(FrameError::UnexpectedEof));
}

#[test]
fn max_allowed_length_accepted() {
    let len = MAX_FRAME_LEN as u32;
    let mut buf = len.to_be_bytes().to_vec();
    buf.extend_from_slice(&[1u8; MAX_FRAME_LEN]);
    assert!(Frame::decode(&buf).is_ok());
}

#[test]
fn max_length_plus_one_rejected() {
    let len = (MAX_FRAME_LEN + 1) as u32;
    let mut buf = len.to_be_bytes().to_vec();
    buf.extend_from_slice(&[1u8; 4]);
    assert_eq!(Frame::decode(&buf), Err(FrameError::TooLarge { len: MAX_FRAME_LEN + 1 }));
}

#[test]
fn u32_max_length_rejected_without_panic() {
    let buf = (u32::MAX).to_be_bytes().to_vec();
    assert_eq!(Frame::decode(&buf), Err(FrameError::TooLarge { len: u32::MAX as usize }));
}

#[test]
fn wrong_magic_bytes_rejected() {
    let mut buf = (2u32).to_be_bytes().to_vec();
    buf.extend_from_slice(&[0xFF, 0x01]);
    assert_eq!(Frame::decode(&buf), Err(FrameError::BadVersion(0xFF)));
}

#[test]
fn protocol_loader_boundary_unknown_frame_type_rejected() {
    let mut buf = (2u32).to_be_bytes().to_vec();
    buf.extend_from_slice(&[1, 0xAB]);
    assert_eq!(Frame::decode(&buf), Err(FrameError::UnknownFrameType(0xAB)));
}

#[test]
fn frame_type_from_u8_unknown_returns_none() {
    assert_eq!(FrameType::from_u8(255), Some(FrameType::Heartbeat));
    assert_eq!(FrameType::from_u8(200), None);
    assert_eq!(FrameType::from_u8(0x00), None);
}

#[test]
fn state_update_empty_body_returns_none() {
    assert!(decode_state_update(&[]).is_none());
}

#[test]
fn state_update_truncated_body_returns_none() {
    for len in 0..19 {
        let body = vec![0u8; len];
        assert!(decode_state_update(&body).is_none(), "len={} 应返回 None", len);
    }
}

#[test]
fn state_update_exact_19_bytes_accepted() {
    let body = vec![
        0, 0, 0, 1, // entity_id
        0, 0, 0, 0, 0, 0, 0, 1, // timestamp
        0, 1, // slice_mask
        0, // endpoint_idx
        0x3F, 0x80, 0x00, 0x00, // delta = 1.0f32
    ];
    assert!(decode_state_update(&body).is_some());
}

#[test]
fn state_update_u32_max_entity_id_accepted() {
    let mut body = [0u8; 19];
    body[0..4].copy_from_slice(&u32::MAX.to_be_bytes());
    let result = decode_state_update(&body);
    assert!(result.is_some());
    let (id, _) = result.unwrap();
    assert_eq!(id, u32::MAX);
}

#[test]
fn state_update_nan_delta_accepted() {
    let mut body = [0u8; 19];
    body[15..19].copy_from_slice(&f32::NAN.to_be_bytes());
    let result = decode_state_update(&body);
    assert!(result.is_some());
    let (_, ev) = result.unwrap();
    assert!(val(ev.delta_bits).is_nan());
}

#[test]
fn state_update_infinity_delta_accepted() {
    let mut body = [0u8; 19];
    body[15..19].copy_from_slice(&f32::INFINITY.to_be_bytes());
    let result = decode_state_update(&body);
    assert!(result.is_some());
    let (_, ev) = result.unwrap();
    assert!(val(ev.delta_bits).is_infinite());
}

#[test]
fn cascade_run_empty_body_returns_none() {
    assert!(decode_cascade_run(&[]).is_none());
}

#[test]
fn cascade_run_truncated_before_count_returns_none() {
    for len in 0..7 {
        let body = vec![0u8; len];
        assert!(decode_cascade_run(&body).is_none());
    }
}

#[test]
fn cascade_run_zero_max_hops_accepted() {
    let body = encode_cascade_run(bits(0.1), 0, &[]);
    let result = decode_cascade_run(&body);
    assert!(result.is_some());
    let (_, hops, _) = result.unwrap();
    assert_eq!(hops, 0);
}

#[test]
fn cascade_run_max_hops_255_accepted() {
    let body = encode_cascade_run(bits(0.1), 255, &[]);
    let result = decode_cascade_run(&body);
    assert!(result.is_some());
    let (_, hops, _) = result.unwrap();
    assert_eq!(hops, 255);
}

#[test]
fn cascade_run_negative_theta_accepted() {
    let body = encode_cascade_run(bits(-1.0), 5, &[]);
    let result = decode_cascade_run(&body);
    assert!(result.is_some());
    let (theta, _, _) = result.unwrap();
    assert_eq!(val(theta), -1.0);
}

#[test]
fn cascade_run_nan_theta_accepted() {
    let mut body = [0u8; 7];
    body[0..4].copy_from_slice(&f32::NAN.to_be_bytes());
    let result = decode_cascade_run(&body);
    assert!(result.is_some());
    let (theta, _, _) = result.unwrap();
    assert!(val(theta).is_nan());
}

#[test]
fn cascade_run_truncated_initial_shock_returns_none() {
    let mut body = [0u8; 7];
    body[0..4].copy_from_slice(&0.1f32.to_be_bytes());
    body[4] = 5;
    body[5..7].copy_from_slice(&1u16.to_be_bytes());
    assert!(decode_cascade_run(&body).is_none());
}

#[test]
fn cascade_run_empty_initial_accepted() {
    let body = encode_cascade_run(bits(0.1), 5, &[]);
    let result = decode_cascade_run(&body);
    assert!(result.is_some());
    let (_, _, initial) = result.unwrap();
    assert!(initial.is_empty());
}

#[test]
fn cascade_run_u32_max_entity_id_accepted() {
    let body = encode_cascade_run(bits(0.1), 5, &shocks(&[(u32::MAX, 1.0)]));
    let result = decode_cascade_run(&body);
    assert!(result.is_some());
    let (_, _, initial) = result.unwrap();
    assert_eq!(initial[0].0, u32::MAX);
}

#[test]
fn cascade_results_empty_body_returns_none() {
    assert!(decode_cascade_results(&[]).is_none());
}

#[test]
fn cascade_results_only_count_byte_returns_none() {
    assert!(decode_cascade_results(&[1]).is_none());
}

#[test]
fn cascade_results_zero_count_accepted() {
    let body = encode_cascade_results(&[]);
    let result = decode_cascade_results(&body);
    assert!(result.is_some());
    assert!(result.unwrap().is_empty());
}

#[test]
fn cascade_results_truncated_entry_returns_none() {
    let body = [0, 1];
    assert!(decode_cascade_results(&body).is_none());
}

#[test]
fn cascade_results_nan_confidence_accepted() {
    let mut body = [0u8; 15];
    body[0..2].copy_from_slice(&1u16.to_be_bytes());
    body[6..10].copy_from_slice(&f32::NAN.to_be_bytes());
    let result = decode_cascade_results(&body);
    assert!(result.is_some());
    let results = result.unwrap();
    assert!(val(results[0].confidence_bits).is_nan());
}

#[test]
fn state_update_round_trip_with_boundary_values() {
    let test_cases = vec![
        (0u32, DeltaEvent::new(0, 0, 0, bits(0.0))),
        (u32::MAX, DeltaEvent::new(u64::MAX, u16::MAX, u8::MAX, bits(f32::MAX))),
        (42, DeltaEvent::new(0, 0xFFFF, 7, bits(-1.0))),
    ];
    for (id, ev) in test_cases {
        let body = encode_state_update(id, &ev);
        let (id2, ev2) = decode_state_update(&body).expect("应解码成功");
        assert_eq!(id, id2);
        let got = (ev2.timestamp_us, ev2.slice_mask, ev2.endpoint_idx);
        let want = (ev.timestamp_us, ev.slice_mask, ev.endpoint_idx);
        assert_eq!(got, want);
        let (a, b) = (val(ev.delta_bits), val(ev2.delta_bits));
        assert!((a - b).abs() < f32::EPSILON || a.is_nan());
    }
}

#[test]
fn cascade_run_round_trip_with_boundary_values() {
    let test_cases: Vec<(f32, u8, Vec<(u32, f32)>)> = vec![
        (0.0, 0u8, vec![]),
        (1.0, 255, vec![(u32::MAX, f32::MAX), (0, -1.0)]),
        (-1.0, 128, vec![(0, 0.0)]),
    ];
    for (theta, hops, initial) in test_cases {
        let initial = shocks(&initial);
        let body = encode_cascade_run(bits(theta), hops, &initial);
        let (theta2, hops2, initial2) = decode_cascade_run(&body).expect("应解码成功");
        assert!((theta - val(theta2)).abs() < f32::EPSILON || theta.is_nan());
        assert_eq!(hops, hops2);
        assert_eq!(initial, initial2);
    }
}

#[test]
fn cascade_results_round_trip_with_boundary_values() {
    let test_cases = vec![
        vec![],
        vec![result(u32::MAX, f32::MAX, 255, u32::MAX)],
        vec![result(0, 0.0, 0, 0), result(1, -1.0, 255, u32::MAX)],
    ];
    for results in test_cases {
        let body = encode_cascade_results(&results);
        let results2 = decode_cascade_results(&body).expect("应解码成功");
        assert_eq!(results.len(), results2.len());
        for (a, b) in results.iter().zip(results2.iter()) {
            assert_eq!(a.entity_id, b.entity_id);
            let (ca, cb) = (val(a.confidence_bits), val(b.confidence_bits));
            assert!((ca - cb).abs() < f32::EPSILON || ca.is_nan());
            assert_eq!(a.hop, b.hop);
            assert_eq!(a.lag_us, b.lag_us);
        }
    }
}

// ---- Exact wire layouts ----

#[test]
fn frame_encoding_exact_bytes() {
    let f = Frame::new(FrameType::CascadeRun, vec![9, 8]);
    assert_eq!(f.encode(), vec![0, 0, 0, 4, 1, 0x04, 9, 8]);
    let hb = Frame::new(FrameType::Heartbeat, vec![]);
    assert_eq!(hb.encode(), vec![0, 0, 0, 2, 1, 0xFF]);
}

#[test]
fn frame_payload_shorter_than_header_rejected() {
    assert_eq!(Frame::decode(&[0, 0, 0, 0]), Err(FrameError::UnexpectedEof));
    assert_eq!(Frame::decode(&[0, 0, 0, 1, 1]), Err(FrameError::UnexpectedEof));
}

#[test]
fn frame_one_byte_payload_with_wrong_version_is_bad_version() {
    assert_eq!(Frame::decode(&[0, 0, 0, 1, 5]), Err(FrameError::BadVersion(5)));
}

#[test]
fn frame_decode_ignores_trailing_bytes() {
    let f = Frame::new(FrameType::StateQuery, vec![7]);
    let mut enc = f.encode();
    enc.extend_from_slice(&[0xAA, 0xBB]);
    assert_eq!(Frame::decode(&enc).unwrap(), f);
}

#[test]
fn frame_other_version_round_trip_is_refused() {
    let f = Frame { version: 2, frame_type: FrameType::StateQuery, body: vec![1] };
    assert_eq!(Frame::decode(&f.encode()), Err(FrameError::BadVersion(2)));
}

#[test]
fn frame_type_codes_are_wire_bytes() {
    assert_eq!(FrameType::StateUpdate.code(), 0x01);
    assert_eq!(FrameType::SnapshotResp.code(), 0x07);
    assert_eq!(FrameType::Heartbeat.code(), 0xFF);
    for b in 0u8..=255 {
        if let Some(ft) = FrameType::from_u8(b) {
            assert_eq!(ft.code(), b);
        }
    }
}

#[test]
fn state_update_exact_bytes() {
    let ev = DeltaEvent::new(0x0102030405060708, 0x0A0B, 0x0C, 0x3F80_0000);
    let body = encode_state_update(0xDEADBEEF, &ev);
    assert_eq!(
        body,
        vec![
            0xDE, 0xAD, 0xBE, 0xEF, 1, 2, 3, 4, 5, 6, 7, 8, 0x0A, 0x0B, 0x0C, 0x3F, 0x80, 0, 0
        ]
    );
}

#[test]
fn cascade_run_exact_bytes() {
    let body = encode_cascade_run(0x3DCC_CCCD, 3, &[(0x01020304, 0x3F80_0000)]);
    assert_eq!(
        body,
        vec![0x3D, 0xCC, 0xCC, 0xCD, 3, 0, 1, 1, 2, 3, 4, 0x3F, 0x80, 0, 0]
    );
}

#[test]
fn cascade_results_hop_written_as_one_byte() {
    let body = encode_cascade_results(&[result(5, 1.0, 0x1_02, 7)]);
    assert_eq!(body, vec![0, 1, 0, 0, 0, 5, 0x3F, 0x80, 0, 0, 0x02, 0, 0, 0, 7]);
    let dec = decode_cascade_results(&body).unwrap();
    assert_eq!(dec[0].hop, 2);
}

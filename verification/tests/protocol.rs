use netgol::protocol::{
    bits_to_rows, decode_client, decode_server, encode_client, encode_server, rows_to_bits, ClientMsg,
    DecodeError, EditCell, Region, ServerMsg, BITS_BYTES, FLAG_FROZEN, FLAG_LOCKED, FLAG_OWNED,
};
use netgol::CHUNK_SIZE;
use std::sync::Arc;

fn sample_bits() -> [u8; BITS_BYTES] {
    let mut b = [0u8; BITS_BYTES];
    for (i, v) in b.iter_mut().enumerate() {
        *v = (i & 0xff) as u8;
    }
    b
}

#[test]
fn server_roundtrip_all_variants() {
    let bits = sample_bits();
    let cases = [
        ServerMsg::Hello { tick: 7, chunk_size: CHUNK_SIZE as u8 },
        ServerMsg::ChunkState { cx: -5, cy: 12, tick: 99, bits },
        ServerMsg::ChunkDelta { cx: i32::MIN, cy: i32::MAX, tick: u64::MAX, bits },
        ServerMsg::Regions {
            regions: Arc::from(vec![
                Region {
                    x: -100,
                    y: -50,
                    w: 200,
                    h: 100,
                    flags: FLAG_FROZEN | FLAG_LOCKED,
                    owner: 0,
                },
                Region { x: 0, y: 0, w: 32, h: 32, flags: FLAG_OWNED, owner: 42 },
            ]),
        },
        ServerMsg::Reaped { cx: 0, cy: -1 },
        ServerMsg::Stats {
            tick: 42,
            live_chunks: 1234,
            tick_rate_hz: 9.994f32.to_bits(),
            tick_utilization: 0.087f32.to_bits(),
        },
        ServerMsg::Sync { tick: u64::MAX },
        ServerMsg::EditApplied {
            cx: -3,
            cy: 7,
            cells: vec![
                EditCell { cx: -3, cy: 7, lx: 0, ly: 0, alive: true },
                EditCell { cx: -3, cy: 7, lx: 63, ly: 63, alive: false },
            ],
        },
        ServerMsg::EditApplied { cx: 0, cy: 0, cells: vec![] },
        ServerMsg::AuthState {
            uid: 42,
            claim: Some((-3, 7)),
            name: "Alice".into(),
            email: "a@b.com".into(),
        },
        ServerMsg::AuthState { uid: 0, claim: None, name: String::new(), email: String::new() },
        ServerMsg::ClaimResult { ok: true },
        ServerMsg::ClaimResult { ok: false },
    ];
    for msg in &cases {
        let mut buf = Vec::new();
        encode_server(msg, &mut buf);
        let decoded = decode_server(&buf).expect("decode");
        assert_eq!(&decoded, msg);
    }
}

#[test]
fn client_roundtrip_all_variants() {
    let cases = [
        ClientMsg::Subscribe(vec![(1, 2), (-3, -4)]),
        ClientMsg::Unsubscribe(vec![]),
        ClientMsg::Edit(vec![
            EditCell { cx: 1, cy: 2, lx: 0, ly: 0, alive: true },
            EditCell { cx: -1, cy: 0, lx: 31, ly: 31, alive: false },
        ]),
        ClientMsg::ClaimCreate((-5, 3)),
        ClientMsg::ClaimDelete,
    ];
    for msg in &cases {
        let mut buf = Vec::new();
        encode_client(msg, &mut buf);
        let decoded = decode_client(&buf).expect("decode");
        assert_eq!(&decoded, msg);
    }
}

#[test]
fn rows_bits_roundtrip() {
    let mut rows = [0u64; CHUNK_SIZE];
    for (i, r) in rows.iter_mut().enumerate() {
        *r = 0xdead_beef_dead_0000 ^ (i as u64);
    }
    assert_eq!(bits_to_rows(&rows_to_bits(&rows)), rows);
}

#[test]
fn rejects_unknown_tag() {
    assert!(matches!(decode_server(&[0xff]), Err(DecodeError::UnknownTag(0xff))));
    assert!(matches!(decode_client(&[0xff]), Err(DecodeError::UnknownTag(0xff))));
}

#[test]
fn rejects_truncated() {
    let mut buf = Vec::new();
    encode_server(
        &ServerMsg::Stats {
            tick: 1,
            live_chunks: 0,
            tick_rate_hz: 0.0f32.to_bits(),
            tick_utilization: 0.0f32.to_bits(),
        },
        &mut buf,
    );
    buf.pop();
    assert!(matches!(decode_server(&buf), Err(DecodeError::Truncated)));
}

#[test]
fn rejects_bad_local_coord() {
    let bad = ClientMsg::Edit(vec![EditCell {
        cx: 0,
        cy: 0,
        lx: CHUNK_SIZE as u8,
        ly: 0,
        alive: true,
    }]);
    let mut buf = Vec::new();
    encode_client(&bad, &mut buf);
    assert!(matches!(decode_client(&buf), Err(DecodeError::BadLocalCoord)));
}

#[test]
fn rejects_empty_frames() {
    assert!(matches!(decode_server(&[]), Err(DecodeError::Empty)));
    assert!(matches!(decode_client(&[]), Err(DecodeError::Empty)));
}

#[test]
fn names_are_texts_of_any_script() {
    let msg = ServerMsg::AuthState {
        uid: 1,
        claim: None,
        name: "Z\u{fc}rich \u{1f30d}".into(),
        email: "z@\u{e9}.org".into(),
    };
    let mut buf = Vec::new();
    encode_server(&msg, &mut buf);
    assert_eq!(decode_server(&buf).expect("decode"), msg);
    // A byte that no text has makes the frame unreadable.
    let last = buf.len() - 1;
    buf[last] = 0xff;
    assert!(decode_server(&buf).is_err());
}

#[test]
fn errors_say_what_went_wrong() {
    assert_eq!(DecodeError::Empty.message(), "empty frame");
    assert_eq!(DecodeError::UnknownTag(0xa7).message(), "unknown tag 0xa7");
    assert_eq!(DecodeError::Truncated.message(), "truncated frame");
    assert_eq!(DecodeError::BadLocalCoord.message(), "local coord out of CHUNK_SIZE range");
}

#[test]
fn edit_frame_layout() {
    let mut buf = Vec::new();
    encode_client(
        &ClientMsg::Edit(vec![EditCell { cx: 1, cy: -1, lx: 2, ly: 3, alive: true }]),
        &mut buf,
    );
    assert_eq!(buf[1..], [1, 0, 1, 0, 0, 0, 0xff, 0xff, 0xff, 0xff, 2, 3, 1]);
}

fn all_server_msgs() -> Vec<ServerMsg> {
    let region = Region { x: -3, y: 4, w: 5, h: 6, flags: FLAG_LOCKED, owner: 7 };
    vec![
        ServerMsg::Hello { tick: 7, chunk_size: 64 },
        ServerMsg::Regions { regions: Arc::from(vec![region, region]) },
        ServerMsg::ChunkState { cx: 1, cy: -2, tick: 3, bits: sample_bits() },
        ServerMsg::ChunkDelta { cx: 1, cy: -2, tick: 3, bits: sample_bits() },
        ServerMsg::Reaped { cx: 1, cy: 2 },
        ServerMsg::Stats { tick: 1, live_chunks: 2, tick_rate_hz: 3, tick_utilization: 4 },
        ServerMsg::Sync { tick: 5 },
        ServerMsg::EditApplied {
            cx: 1,
            cy: 2,
            cells: vec![EditCell { cx: 1, cy: 2, lx: 3, ly: 4, alive: true }],
        },
        ServerMsg::AuthState {
            uid: 3,
            claim: Some((1, 2)),
            name: "Zoë".into(),
            email: "z@example.org".into(),
        },
        ServerMsg::ClaimResult { ok: true },
    ]
}

fn all_client_msgs() -> Vec<ClientMsg> {
    let cell = EditCell { cx: 1, cy: 2, lx: 3, ly: 4, alive: true };
    vec![
        ClientMsg::Subscribe(vec![(1, 2), (-3, 4)]),
        ClientMsg::Unsubscribe(vec![(1, 2)]),
        ClientMsg::Edit(vec![cell, cell]),
        ClientMsg::ClaimCreate((5, -6)),
        ClientMsg::ClaimDelete,
    ]
}

#[test]
fn tails_are_ignored_and_prefixes_are_truncated() {
    for m in all_server_msgs() {
        let mut buf = Vec::new();
        encode_server(&m, &mut buf);
        assert_eq!(decode_server(&[]), Err(DecodeError::Empty));
        for k in 1..buf.len() {
            assert_eq!(decode_server(&buf[..k]), Err(DecodeError::Truncated));
        }
        buf.extend_from_slice(&[0, 255, 1]);
        assert_eq!(decode_server(&buf), Ok(m.clone()));
    }
    for m in all_client_msgs() {
        let mut buf = Vec::new();
        encode_client(&m, &mut buf);
        assert_eq!(decode_client(&[]), Err(DecodeError::Empty));
        for k in 1..buf.len() {
            assert_eq!(decode_client(&buf[..k]), Err(DecodeError::Truncated));
        }
        buf.extend_from_slice(&[0, 255, 1]);
        assert_eq!(decode_client(&buf), Ok(m.clone()));
    }
    // A tail does not mend what is rejected.
    assert_eq!(decode_client(&[200, 1, 2]), decode_client(&[200]));
}

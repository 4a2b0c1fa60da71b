use crystallink::batch::PacketBatcher;
use crystallink::capture::ScreenCapturer;
use crystallink::codec::check_tile_complexity;
use crystallink::codec::decompress_tile;
use crystallink::codec::encode_tile;
use crystallink::codec::encode_tile_lossless;
use crystallink::diff::process_frame;
use crystallink::diff::refresh_frame;
use crystallink::discovery::PeerAddr;
use crystallink::discovery::SessionDiscovery;
use crystallink::discovery::SessionState;
use crystallink::protocol::decode_packet;
use crystallink::protocol::encode_packet;
use crystallink::protocol::CompressionType;
use crystallink::protocol::Packet;
use crystallink::protocol::TileData;
use crystallink::reassemble::FrameReassembler;
use crystallink::MAX_UDP_PAYLOAD;

fn raw_tile(fill: u8) -> Vec<u8> {
    vec![fill; 32 * 32 * 4]
}

fn noisy_tile() -> Vec<u8> {
    // A simple linear-congruential fill: high-entropy, incompressible.
    let mut v = Vec::with_capacity(32 * 32 * 4);
    let mut s: u32 = 0x12345678;
    for _ in 0..(32 * 32 * 4) {
        s = s.wrapping_mul(1664525).wrapping_add(1013904223);
        v.push((s >> 24) as u8);
    }
    v
}

#[test]
fn wire_round_trip_discovery() {
    let p = Packet::Discovery { hostname: String::from("WinReceiver") };
    let bytes = encode_packet(&p).expect("well-formed");
    match decode_packet(&bytes) {
        Some(Packet::Discovery { hostname }) => assert_eq!(hostname, "WinReceiver"),
        other => panic!("wrong decode: {:?}", other),
    }
}

#[test]
fn wire_round_trip_frame_start_and_cursor() {
    let bytes = encode_packet(&Packet::FrameStart { frame_id: 0xDEADBEEF }).unwrap();
    match decode_packet(&bytes) {
        Some(Packet::FrameStart { frame_id }) => assert_eq!(frame_id, 0xDEADBEEF),
        other => panic!("wrong decode: {:?}", other),
    }
    let bytes = encode_packet(&Packet::Cursor { x: 123, y: 45678 }).unwrap();
    match decode_packet(&bytes) {
        Some(Packet::Cursor { x, y }) => {
            assert_eq!(x, 123);
            assert_eq!(y, 45678);
        },
        other => panic!("wrong decode: {:?}", other),
    }
}

#[test]
fn wire_round_trip_tile_batch() {
    let tiles = vec![
        TileData { x: 0, y: 32, compression: CompressionType::Raw, data: vec![1, 2, 3] },
        TileData { x: 64, y: 0, compression: CompressionType::Lz4, data: vec![9, 8, 7, 6] },
    ];
    let bytes = encode_packet(&Packet::TileBatch { frame_id: 7, tiles }).unwrap();
    match decode_packet(&bytes) {
        Some(Packet::TileBatch { frame_id, tiles }) => {
            assert_eq!(frame_id, 7);
            assert_eq!(tiles.len(), 2);
            assert_eq!(tiles[0].x, 0);
            assert_eq!(tiles[0].y, 32);
            assert!(matches!(tiles[0].compression, CompressionType::Raw));
            assert_eq!(tiles[0].data, vec![1, 2, 3]);
            assert_eq!(tiles[1].x, 64);
            assert!(matches!(tiles[1].compression, CompressionType::Lz4));
            assert_eq!(tiles[1].data, vec![9, 8, 7, 6]);
        },
        other => panic!("wrong decode: {:?}", other),
    }
}

#[test]
fn decode_rejects_malformed() {
    assert!(decode_packet(&vec![]).is_none());
    assert!(decode_packet(&vec![9, 1, 2]).is_none());
    // FrameStart with a missing byte
    assert!(decode_packet(&vec![1, 0, 0, 0]).is_none());
    // trailing garbage after a cursor packet
    assert!(decode_packet(&vec![3, 0, 0, 0, 0, 0]).is_none());
    // TileBatch announcing one tile but carrying none
    assert!(decode_packet(&vec![2, 7, 0, 0, 0, 1, 0, 0, 0]).is_none());
    // unknown compression scheme byte inside a tile
    let mut bad = vec![2, 7, 0, 0, 0, 1, 0, 0, 0];
    bad.extend_from_slice(&[0, 0, 0, 0, 9, 0, 0, 0, 0]);
    assert!(decode_packet(&bad).is_none());
    // Discovery with invalid UTF-8
    assert!(decode_packet(&vec![0, 2, 0, 0xFF, 0xFE]).is_none());
}

#[test]
fn lossless_round_trip_constant_payload() {
    let raw = raw_tile(0xAB);
    let (compression, data) = encode_tile_lossless(raw.clone());
    let tile = TileData { x: 0, y: 0, compression, data };
    assert_eq!(decompress_tile(&tile), raw);
}

#[test]
fn lossless_round_trip_noisy_payload() {
    let raw = noisy_tile();
    let (compression, data) = encode_tile_lossless(raw.clone());
    let tile = TileData { x: 0, y: 0, compression, data };
    assert_eq!(decompress_tile(&tile), raw);
}

#[test]
fn constant_tile_compresses_well_under_raw() {
    let raw = raw_tile(0x55);
    let (compression, data) = encode_tile_lossless(raw);
    assert!(matches!(compression, CompressionType::Lz4));
    assert!(data.len() < 512, "compressed to {} bytes", data.len());
}

#[test]
fn incompressible_tile_falls_back_to_raw() {
    let raw = noisy_tile();
    let (compression, data) = encode_tile_lossless(raw.clone());
    assert!(matches!(compression, CompressionType::Raw));
    assert_eq!(data, raw);
    assert!(data.len() <= 32 * 32 * 4);
}

#[test]
fn classifier_separates_flat_from_noise() {
    assert!(!check_tile_complexity(&raw_tile(7)));
    assert!(check_tile_complexity(&noisy_tile()));
}

#[test]
fn adaptive_encoder_uses_lossy_result_only_for_complex_tiles() {
    // complex content with a lossy codec result at hand: tagged lossy
    let (c, d) = encode_tile(noisy_tile(), Some(vec![1, 2, 3]));
    assert!(matches!(c, CompressionType::Jpeg));
    assert_eq!(d, vec![1, 2, 3]);
    // flat content ignores the lossy result and stays lossless
    let (c, _) = encode_tile(raw_tile(9), Some(vec![1, 2, 3]));
    assert!(!matches!(c, CompressionType::Jpeg));
    // codec failure (no result) falls back losslessly, tile is not dropped
    let raw = noisy_tile();
    let (c, d) = encode_tile(raw.clone(), None);
    let tile = TileData { x: 0, y: 0, compression: c, data: d };
    assert_eq!(decompress_tile(&tile), raw);
}

#[test]
fn second_diff_on_identical_frame_is_empty() {
    let width = 64;
    let height = 48;
    let curr: Vec<u8> = (0..4 * width * height).map(|i| (i % 251) as u8).collect();
    let mut prev = vec![0u8; 4 * width * height];
    let first = process_frame(&curr, &mut prev, width, height);
    assert!(!first.is_empty());
    let second = process_frame(&curr, &mut prev, width, height);
    assert!(second.is_empty());
}

#[test]
fn diff_flags_exactly_the_changed_tile() {
    let width = 96;
    let height = 64;
    let base = vec![10u8; 4 * width * height];
    let mut prev = base.clone();
    let mut curr = base.clone();
    // touch one pixel inside the tile anchored at (32, 32)
    curr[((33 * width) + 40) * 4 + 1] = 99;
    let changes = process_frame(&curr, &mut prev, width, height);
    assert_eq!(changes.len(), 1);
    assert_eq!((changes[0].x, changes[0].y), (32, 32));
    // near-constant content must take the entropy-coded path, well under raw
    assert!(matches!(changes[0].compression, CompressionType::Lz4));
    assert!(changes[0].data.len() < 512);
    // the emitted payload decodes to the capture's pixels
    let decoded = decompress_tile(&changes[0]);
    assert_eq!(decoded.len(), 32 * 32 * 4);
    assert_eq!(decoded[((1 * 32) + 8) * 4 + 1], 99);
}

#[test]
fn batches_stay_within_budget_and_tiles_never_split() {
    let batcher = PacketBatcher::new(MAX_UDP_PAYLOAD);
    let tiles: Vec<TileData> = (0..5)
        .map(|k| TileData {
            x: 32 * k,
            y: 0,
            compression: CompressionType::Raw,
            data: vec![k as u8; 600],
        })
        .collect();
    let (batches, rejected) = batcher.batch_tiles(tiles);
    assert!(rejected.is_empty());
    // 600-byte tiles serialize to 609 bytes; two fit under 1400, three do not
    assert_eq!(batches.iter().map(|b| b.len()).collect::<Vec<_>>(), vec![2, 2, 1]);
    let mut seen = 0u16;
    for b in &batches {
        assert!(!b.is_empty());
        for t in b {
            assert_eq!(t.x, 32 * seen);
            seen += 1;
        }
        let wire = encode_packet(&Packet::TileBatch { frame_id: 1, tiles: b.clone() }).unwrap();
        assert!(wire.len() <= MAX_UDP_PAYLOAD, "batch serialized to {}", wire.len());
    }
    assert_eq!(seen, 5);
}

#[test]
fn oversized_tile_is_reported_not_split() {
    let batcher = PacketBatcher::new(100);
    let tiles = vec![
        TileData { x: 0, y: 0, compression: CompressionType::Raw, data: vec![1; 50] },
        TileData { x: 32, y: 0, compression: CompressionType::Raw, data: vec![2; 500] },
        TileData { x: 64, y: 0, compression: CompressionType::Raw, data: vec![3; 50] },
    ];
    let (batches, rejected) = batcher.batch_tiles(tiles);
    assert_eq!(rejected.len(), 1);
    assert_eq!(rejected[0].x, 32);
    let flat: Vec<u16> = batches.iter().flatten().map(|t| t.x).collect();
    assert_eq!(flat, vec![0, 64]);
}

#[test]
fn stale_batch_leaves_framebuffer_unchanged() {
    let mut rx = FrameReassembler::new(64, 64, 2);
    let fresh = vec![TileData {
        x: 0,
        y: 0,
        compression: CompressionType::Raw,
        data: raw_tile(0xCC),
    }];
    rx.apply_batch(10, &fresh);
    assert_eq!(rx.watermark, 10);
    let before = rx.fb.clone();
    let stale = vec![TileData {
        x: 0,
        y: 0,
        compression: CompressionType::Raw,
        data: raw_tile(0x11),
    }];
    // frame 7 < watermark 10 - window 2
    rx.apply_batch(7, &stale);
    assert_eq!(rx.fb, before);
    assert_eq!(rx.watermark, 10);
    // frame 8 is within the window and is applied
    rx.apply_batch(8, &stale);
    assert_ne!(rx.fb, before);
    assert_eq!(rx.watermark, 10);
}

#[test]
fn blit_writes_packed_rgb() {
    let mut rx = FrameReassembler::new(64, 64, 0);
    let mut data = raw_tile(0);
    data[0] = 0x12; // R of pixel (0, 0)
    data[1] = 0x34; // G
    data[2] = 0x56; // B
    data[3] = 0xFF; // A, dropped
    let tiles = vec![TileData { x: 0, y: 0, compression: CompressionType::Raw, data }];
    rx.apply_batch(1, &tiles);
    assert_eq!(rx.fb[0], 0x123456);
}

#[test]
fn cursor_moves_overlay_not_pixels() {
    let mut rx = FrameReassembler::new(64, 64, 0);
    let before = rx.fb.clone();
    rx.handle_packet(&Packet::Cursor { x: 17, y: 29 });
    assert_eq!((rx.cursor_x, rx.cursor_y), (17, 29));
    assert_eq!(rx.fb, before);
}

#[test]
fn full_refresh_converges_after_loss() {
    let width = 64usize;
    let height = 32usize;
    // sender state
    let capture: Vec<u8> = (0..4 * width * height).map(|i| (i % 199) as u8).collect();
    let mut snapshot = vec![0u8; 4 * width * height];
    let lost = process_frame(&capture, &mut snapshot, width, height);
    assert!(!lost.is_empty());
    // the receiver never sees `lost`; a refresh cycle re-sends every tile
    let mut refresh_snapshot = snapshot.clone();
    let refresh = refresh_frame(&capture, &mut refresh_snapshot, width, height);
    assert_eq!(refresh.len(), (width / 32) * (height / 32));
    let mut rx = FrameReassembler::new(width, height, 0);
    rx.apply_batch(2, &refresh);
    // every pixel now shows the sender's capture
    for py in 0..height {
        for px in 0..width {
            let b = ((py * width) + px) * 4;
            let want = ((capture[b] as u32) << 16)
                | ((capture[b + 1] as u32) << 8)
                | (capture[b + 2] as u32);
            assert_eq!(rx.fb[py * width + px], want, "pixel ({}, {})", px, py);
        }
    }
}

#[test]
fn searching_locks_on_valid_announce() {
    let mut d = SessionDiscovery::new(1000);
    assert!(d.should_announce());
    assert_eq!(d.current_target(), None);
    let a = PeerAddr { ip: 0xC0A80105, port: 5555 };
    let bytes = encode_packet(&Packet::Discovery { hostname: String::from("peer") }).unwrap();
    let got = d.on_datagram(a, &bytes, 50);
    assert!(got.is_some());
    assert_eq!(d.current_target(), Some(a));
    assert!(!d.should_announce());
    // subsequent sends target A even after other hosts chatter
    let b = PeerAddr { ip: 0x0A000001, port: 9999 };
    d.on_datagram(b, &bytes, 60);
    assert_eq!(d.current_target(), Some(a));
}

#[test]
fn malformed_datagram_never_locks_and_is_counted() {
    let mut d = SessionDiscovery::new(1000);
    let a = PeerAddr { ip: 1, port: 2 };
    assert!(d.on_datagram(a, &vec![0xFF, 0x00, 0x13], 5).is_none());
    assert!(matches!(d.state, SessionState::Searching));
    assert_eq!(d.malformed_count, 1);
    assert_eq!(d.current_target(), None);
}

#[test]
fn liveness_timeout_returns_to_searching() {
    let mut d = SessionDiscovery::new(100);
    let a = PeerAddr { ip: 7, port: 7 };
    let bytes = encode_packet(&Packet::FrameStart { frame_id: 0 }).unwrap();
    d.on_datagram(a, &bytes, 10);
    d.on_tick(100);
    assert_eq!(d.current_target(), Some(a));
    d.on_tick(111);
    assert!(matches!(d.state, SessionState::Searching));
    assert_eq!(d.current_target(), None);
    assert!(d.should_announce());
}

#[test]
fn capture_pattern_bar_and_gradient() {
    let cap = ScreenCapturer::new();
    let frame = cap.capture_frame(0);
    assert_eq!(frame.len(), 1920 * 1080 * 4);
    // offset 0: pixel (0, 0) sits in the bar
    assert_eq!(&frame[0..4], &[255, 0, 0, 255]);
    // pixel (60, 2) is background gradient
    let i = ((2 * 1920) + 60) * 4;
    assert_eq!(&frame[i..i + 4], &[60, 2, 100, 255]);
    // ten milliseconds later the bar has moved one pixel
    let frame = cap.capture_frame(10);
    assert_eq!(&frame[0..4], &[0, 0, 100, 255]);
    assert_eq!(&frame[4..8], &[255, 0, 0, 255]);
}

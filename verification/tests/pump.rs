use ipbridge::compress::{compress_frame, Codec, Compression};
use ipbridge::pump::{Pump, Want};
use ipbridge::session::ByteStats;

/// Runs a stream through a pump, in reads of at most `piece` bytes.
fn pumped(stream: &[u8], compression: Compression, piece: usize) -> (Vec<u8>, ByteStats) {
    let mut pump = Pump::new(compression);
    let mut rest = stream;
    let mut written = Vec::new();
    let mut stats = ByteStats::default();
    loop {
        let n = match pump.wanted() {
            Want::AtMost(most) => most.min(piece).min(rest.len()),
            Want::Exactly(all) if all <= rest.len() => all,
            Want::Exactly(_) => 0,
            Want::Nothing => return (written, stats),
        };
        let ended = n == 0 && pump.wanted() != Want::Exactly(0);
        let step = if ended {
            pump.on_end()
        } else {
            let (data, more) = rest.split_at(n);
            rest = more;
            pump.on_bytes(data)
        };
        stats.add(step.counted.payload, step.counted.wire);
        written.extend_from_slice(&step.bytes);
    }
}

fn frame(data: &[u8], c: Compression) -> Vec<u8> {
    let mut out = Vec::new();
    compress_frame(c, data, &mut out);
    out
}

#[test]
fn test_tcp_pump_framing_roundtrip() {
    let plain: Vec<u8> = (0..50_000u32)
        .flat_map(|i| format!("{:04x}", i % 4096).into_bytes())
        .collect();
    let (framed, sent) = pumped(&plain, Compression::default(), 1 << 20);
    assert!(
        framed.len() < plain.len(),
        "compression should shrink traffic"
    );
    let (decoded, received) = pumped(&framed, Compression::default(), 1 << 20);
    assert_eq!(decoded, plain);
    assert_eq!(sent.payload, plain.len() as u64);
    assert_eq!(sent.wire, framed.len() as u64);
    assert_eq!(received, sent);
}

#[test]
fn test_tcp_compressed_tunnel_roundtrip() {
    let server = Compression::new(Codec::Zstd, Some(5));
    let client = Compression::new(Codec::Zstd, None);
    let payload: Vec<u8> = (0..20_000u32)
        .flat_map(|i| format!("{:04x}", i % 4096).into_bytes())
        .collect();
    let (request, _) = pumped(&payload, client, 4096);
    let (at_service, _) = pumped(&request, server, 1000);
    assert_eq!(at_service, payload);
    let (response, _) = pumped(&at_service, server, 777);
    let (decoded, _) = pumped(&response, client, 1 << 20);
    assert_eq!(decoded, payload);
}

#[test]
fn streams_of_every_length_come_through_in_any_pieces() {
    for len in [0usize, 1, 2, 3, 4, 5, 9, 10, 100, 65_535, 65_536, 70_000] {
        let stream: Vec<u8> = (0..len).map(|i| (i * 7 % 251) as u8).collect();
        for piece in [1usize, 3, 4096, 1 << 20] {
            if len > 100 && piece < 4096 {
                continue;
            }
            let (framed, _) = pumped(&stream, Compression::new(Codec::Gz, None), piece);
            let (decoded, _) = pumped(&framed, Compression::default(), piece);
            assert_eq!(decoded, stream);
        }
    }
}

#[test]
fn what_is_asked_for() {
    let c = Compression::default();
    let mut pump = Pump::new(c);
    assert_eq!(pump.wanted(), Want::AtMost(4));
    assert!(pump.on_bytes(b"IP").bytes.is_empty());
    assert_eq!(pump.wanted(), Want::AtMost(2));
    assert!(pump.on_bytes(b"BZ").bytes.is_empty());
    assert_eq!(pump.wanted(), Want::Exactly(6));
    assert!(pump.on_bytes(b"\x00\x01\x02\x00\x02\x00").bytes.is_empty());
    assert_eq!(pump.wanted(), Want::Exactly(2));
    let step = pump.on_bytes(b"hi");
    assert_eq!(step.bytes, b"hi");
    assert_eq!(
        step.counted,
        ByteStats {
            payload: 2,
            wire: 12
        }
    );
    assert_eq!(pump.wanted(), Want::Exactly(4));
    assert!(pump.on_bytes(b"IPBZ").bytes.is_empty());
    assert_eq!(pump.wanted(), Want::Exactly(6));
    pump.on_end();
    assert_eq!(pump.wanted(), Want::Nothing);

    let mut pump = Pump::new(c);
    assert_eq!(pump.on_bytes(b"GET ").bytes, frame(b"GET ", c));
    assert_eq!(pump.wanted(), Want::AtMost(65_535));
    assert_eq!(pump.on_bytes(b"/").bytes, frame(b"/", c));
    pump.stop();
    assert_eq!(pump.wanted(), Want::Nothing);
}

#[test]
fn a_stream_that_ends_early_is_framed() {
    let c = Compression::new(Codec::Gz, None);
    let mut pump = Pump::new(c);
    pump.on_bytes(b"IPB");
    let step = pump.on_end();
    assert_eq!(step.bytes, frame(b"IPB", c));
    assert_eq!(
        step.counted,
        ByteStats {
            payload: 3,
            wire: 13
        }
    );
    assert_eq!(pump.wanted(), Want::AtMost(65_535));
    assert!(pump.on_end().bytes.is_empty());
    assert_eq!(pump.wanted(), Want::Nothing);

    let mut pump = Pump::new(c);
    assert!(pump.on_end().bytes.is_empty());
    assert_eq!(pump.wanted(), Want::AtMost(65_535));
}

#[test]
fn a_framed_stream_is_restored_up_to_the_first_fault() {
    let c = Compression::default();
    let good = frame(b"good", c);
    let mut unknown_codec = good.clone();
    unknown_codec[5] = 9;
    let faults: [&[u8]; 4] = [b"junk", &unknown_codec, &good[..9], &good[..12]];
    for fault in faults {
        let stream = [&good[..], &good[..], fault, &good[..]].concat();
        let (restored, _) = pumped(&stream, c, 1 << 20);
        assert_eq!(&restored[..8], b"goodgood");
        assert!(!restored[8..].ends_with(b"good"));
    }
    let empty = frame(b"", c);
    let stream = [&good[..], &empty[..], &good[..]].concat();
    assert_eq!(pumped(&stream, c, 1 << 20).0, b"goodgood");
}

#[test]
fn a_stream_that_is_cut_short_counts_its_whole_frames() {
    let c = Compression::default();
    let good = frame(b"good", c);
    let stream = [&good[..], &good[..]].concat();
    for cut in 4..=stream.len() {
        let whole = cut / good.len();
        let (restored, stats) = pumped(&stream[..cut], c, 1 << 20);
        assert_eq!(restored, b"good".repeat(whole));
        assert_eq!(
            stats,
            ByteStats {
                payload: 4 * whole as u64,
                wire: (good.len() * whole) as u64
            }
        );
    }
    let broken = [&good[..], b"IPBZ\x00\x09\x00\x00\x00\x00", &good[..]].concat();
    let (restored, stats) = pumped(&broken, c, 1 << 20);
    assert_eq!(restored, b"good");
    assert_eq!(
        stats,
        ByteStats {
            payload: 4,
            wire: good.len() as u64
        }
    );
}

use ipbridge::compress::{compress_frame, Codec, Compression};
use ipbridge::config::{Protocol, Tunnel};
use ipbridge::session::ByteStats;
use ipbridge::tunnel::{
    addr_host, fmt_compress, fmt_tunnel_header, is_heartbeat, on_datagram, on_response, restore,
    Inbound, Relay, BUF_SIZE, HEARTBEAT_MAGIC,
};

fn forwarded(datagram: &[u8], compression: Option<Compression>) -> Relay {
    match on_datagram(datagram, compression) {
        Inbound::Forward(relay) => relay,
        Inbound::Echo(_) => panic!("not a heartbeat"),
    }
}

fn hex_words(n: u32) -> Vec<u8> {
    (0..n)
        .flat_map(|i| format!("{:04x}", i % 4096).into_bytes())
        .collect()
}

fn counts(payload: usize, wire: usize) -> ByteStats {
    ByteStats {
        payload: payload as u64,
        wire: wire as u64,
    }
}

/// A request and its echo, through a client tunnel and a server tunnel.
fn echoed(payload: &[u8], client: Option<Compression>, server: Option<Compression>) -> Vec<u8> {
    let at_client = forwarded(payload, client);
    let at_server = forwarded(&at_client.bytes, server);
    assert_eq!(at_server.bytes, payload);
    let back = on_response(&at_server.bytes, server, at_server.link);
    on_response(&back.bytes, client, at_client.link).bytes
}

#[test]
fn the_host_stands_before_the_port() {
    assert_eq!(addr_host("127.0.0.1:7777"), "127.0.0.1");
    assert_eq!(addr_host("[::1]:7777"), "::1");
    assert_eq!(addr_host("example.com:7777"), "example.com");
    assert_eq!(addr_host("0.0.0.0:9000-9005"), "0.0.0.0");
}

#[test]
fn the_host_of_odd_addresses() {
    assert_eq!(addr_host(""), "");
    assert_eq!(addr_host("localhost"), "");
    assert_eq!(addr_host("a:b:c"), "a:b");
    assert_eq!(addr_host("[]:1"), "");
    assert_eq!(addr_host("[a]b]:1"), "a");
}

#[test]
fn test_udp_compressed_tunnel_roundtrip() {
    let server = Some(Compression::new(Codec::Zlib, Some(9)));
    let client = Some(Compression::new(Codec::Zstd, None));
    let payload = hex_words(4096);
    let response = echoed(&payload, client, server);
    assert_eq!(response.len(), payload.len());
    assert_eq!(response, payload);
    assert!(forwarded(&payload, client).bytes.len() < payload.len());
}

#[test]
fn test_udp_client_only_compression_roundtrip() {
    let client = Some(Compression::new(Codec::Zstd, None));
    let compressible = hex_words(2048);
    let mut state: u64 = 0x9E3779B97F4A7C15;
    let incompressible: Vec<u8> = (0..600u32)
        .map(|_| {
            state ^= state << 13;
            state ^= state >> 7;
            state ^= state << 17;
            state as u8
        })
        .collect();
    for payload in [&compressible, &incompressible] {
        let response = echoed(payload, client, None);
        assert_eq!(response.len(), payload.len());
        assert_eq!(&response, payload);
    }
}

#[test]
fn a_tunnel_without_compression_changes_nothing() {
    let payload = hex_words(10);
    assert_eq!(echoed(&payload, None, None), payload);
    let relay = forwarded(&payload, None);
    assert!(!relay.link);
    assert_eq!(relay.counted, counts(0, 0));
}

#[test]
fn a_heartbeat_is_sent_back() {
    assert_eq!(&HEARTBEAT_MAGIC, b"IPBR");
    for compression in [None, Some(Compression::default())] {
        match on_datagram(b"IPBR", compression) {
            Inbound::Echo(bytes) => assert_eq!(bytes, b"IPBR"),
            Inbound::Forward(_) => panic!("a heartbeat is not passed on"),
        }
    }
    assert!(is_heartbeat(b"IPBR"));
    for other in [&b"IPB"[..], &b"IPBZ"[..], &b"IPBR!"[..], &b""[..]] {
        assert!(!is_heartbeat(other));
        assert_eq!(forwarded(other, None).bytes, other);
    }
}

#[test]
fn what_is_counted_of_requests() {
    let c = Some(Compression::new(Codec::Gz, None));
    let payload = hex_words(1000);
    let sent = forwarded(&payload, c);
    assert!(!sent.link);
    assert_eq!(sent.counted, counts(payload.len(), sent.bytes.len()));
    let received = forwarded(&sent.bytes, c);
    assert!(received.link);
    assert_eq!(received.counted, counts(payload.len(), sent.bytes.len()));
    let uncounted = forwarded(&sent.bytes, None);
    assert!(uncounted.link);
    assert_eq!(uncounted.bytes, payload);
    assert_eq!(uncounted.counted, counts(0, 0));
}

#[test]
fn what_is_counted_of_responses() {
    let c = Compression::new(Codec::Zlib, None);
    let payload = hex_words(1000);
    let mut frame = Vec::new();
    compress_frame(c, &payload, &mut frame);

    let framed = on_response(&payload, Some(c), true);
    assert_eq!(framed.bytes, frame);
    assert_eq!(framed.counted, counts(payload.len(), frame.len()));

    let plain = on_response(&payload, Some(c), false);
    assert_eq!(plain.bytes, payload);
    assert_eq!(plain.counted, counts(0, 0));

    let restored = on_response(&frame, Some(c), false);
    assert_eq!(restored.bytes, payload);
    assert_eq!(restored.counted, counts(payload.len(), frame.len()));

    let reframed = on_response(&frame, Some(c), true);
    assert_eq!(reframed.bytes, frame);
    assert_eq!(
        reframed.counted,
        counts(2 * payload.len(), 2 * frame.len())
    );

    let uncompressed = on_response(&frame, None, true);
    assert_eq!(uncompressed.bytes, payload);
    assert_eq!(uncompressed.counted, counts(payload.len(), frame.len()));
}

#[test]
fn only_frames_are_restored() {
    let mut frame = Vec::new();
    compress_frame(Compression::default(), b"hello", &mut frame);
    assert_eq!(restore(&frame), Some(b"hello".to_vec()));
    assert_eq!(restore(b"hello"), None);
    frame[5] = 0;
    assert_eq!(restore(&frame), None);
    let longest = vec![7u8; BUF_SIZE];
    compress_frame(Compression::default(), &longest, &mut frame);
    assert_eq!(restore(&frame), Some(longest));
}

#[test]
fn lines_about_a_tunnel() {
    assert_eq!(
        fmt_compress(Some(Compression::new(Codec::Zstd, Some(-7)))),
        "compress zstd:-7"
    );
    assert_eq!(fmt_compress(Some(Compression::default())), "compress zlib:6");
    assert_eq!(fmt_compress(None), "no compression");
    let tunnel = Tunnel {
        protocol: Protocol::Udp,
        listen: "[::]:7777".to_string(),
        forward: "127.0.0.1:8888".to_string(),
        enable: true,
    };
    assert_eq!(fmt_tunnel_header(&tunnel), "[UDP] [::]:7777 -> 127.0.0.1:8888");
    let tunnel = Tunnel {
        protocol: Protocol::Tcp,
        ..tunnel
    };
    assert_eq!(fmt_tunnel_header(&tunnel), "[TCP] [::]:7777 -> 127.0.0.1:8888");
}

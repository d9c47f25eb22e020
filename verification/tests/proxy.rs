use ipbridge::compress::{compress_frame, Compression};
use ipbridge::proxy::on_datagram;
use ipbridge::session::ByteStats;
use ipbridge::tunnel::Inbound;

#[test]
fn a_proxy_sends_heartbeats_back() {
    match on_datagram(b"IPBR") {
        Inbound::Echo(bytes) => assert_eq!(bytes, b"IPBR"),
        Inbound::Forward(_) => panic!("a heartbeat is not passed on"),
    }
}

#[test]
fn a_proxy_does_not_look_inside_frames() {
    let mut frame = Vec::new();
    compress_frame(Compression::default(), b"hello", &mut frame);
    for datagram in [&frame[..], &b"hello"[..], &b""[..]] {
        match on_datagram(datagram) {
            Inbound::Echo(_) => panic!("not a heartbeat"),
            Inbound::Forward(relay) => {
                assert_eq!(relay.bytes, datagram);
                assert!(!relay.link);
                assert_eq!(relay.counted, ByteStats::default());
            }
        }
    }
}

use ipbridge::check::{advance, Outcome, Step, Subject, CONNECT_SECONDS, REPLY_SECONDS};
use ipbridge::config::{Protocol, Tunnel};
use ipbridge::tunnel::HEARTBEAT_MAGIC;

const OK: &str = "  \x1b[32m[ok]\x1b[0m ";
const FAIL: &str = "  \x1b[31m[fail]\x1b[0m ";
const WARN: &str = "  \x1b[33m[warn]\x1b[0m ";

fn tunnel(protocol: Protocol) -> Tunnel {
    Tunnel {
        protocol,
        listen: "[::]:7777".to_string(),
        forward: "example.com:8888".to_string(),
        enable: true,
    }
}

fn line(subject: Subject, protocol: Protocol, step: Step, outcome: Outcome) -> (String, Step) {
    let (line, next) = advance(subject, &tunnel(protocol), step, &outcome);
    (line.unwrap_or_default(), next)
}

fn resolved(addr: &str, domain: bool) -> Outcome {
    Outcome::Resolved {
        addr: addr.to_string(),
        domain,
    }
}

fn failed() -> Outcome {
    Outcome::Failed("no luck".to_string())
}

fn replied(bytes: &[u8]) -> Outcome {
    Outcome::Replied {
        from: "10.0.0.1:8888".to_string(),
        bytes: bytes.to_vec(),
    }
}

#[test]
fn addresses_are_resolved_first() {
    for subject in [Subject::Tunnel, Subject::Proxy] {
        let (said, next) = line(
            subject,
            Protocol::Tcp,
            Step::ResolveListen,
            resolved("[::]:7777", false),
        );
        assert_eq!(said, format!("{OK}listen resolves to [::]:7777"));
        assert_eq!(next, Step::ResolveForward);
        let (said, next) = line(
            subject,
            Protocol::Tcp,
            Step::ResolveListen,
            Outcome::Unresolved,
        );
        assert_eq!(said, format!("{FAIL}listen DNS resolution failed"));
        assert_eq!(next, Step::Done);
        let (said, next) = line(
            subject,
            Protocol::Udp,
            Step::ResolveForward,
            Outcome::Unresolved,
        );
        assert_eq!(said, format!("{FAIL}forward DNS resolution failed"));
        assert_eq!(next, Step::Done);
    }
}

#[test]
fn a_domain_is_named_for_a_tunnel_only() {
    let (said, next) = line(
        Subject::Tunnel,
        Protocol::Tcp,
        Step::ResolveForward,
        resolved("10.0.0.1:8888", true),
    );
    assert_eq!(
        said,
        format!("{OK}forward \"example.com:8888\" resolves to 10.0.0.1:8888")
    );
    assert_eq!(next, Step::BindTcp);
    let (said, next) = line(
        Subject::Proxy,
        Protocol::Udp,
        Step::ResolveForward,
        resolved("10.0.0.1:8888", true),
    );
    assert_eq!(said, format!("{OK}forward resolves to 10.0.0.1:8888"));
    assert_eq!(next, Step::BindUdp);
    let (said, _) = line(
        Subject::Tunnel,
        Protocol::Tcp,
        Step::ResolveListen,
        resolved("127.0.0.1:1", true),
    );
    assert_eq!(
        said,
        format!("{OK}listen \"[::]:7777\" resolves to 127.0.0.1:1")
    );
}

#[test]
fn tcp_is_connected_even_where_the_port_is_taken() {
    assert_eq!(CONNECT_SECONDS, 3);
    let steps = [
        (Step::BindTcp, Outcome::Worked, OK, "listen port available"),
        (
            Step::BindTcp,
            failed(),
            FAIL,
            "listen port unavailable: no luck",
        ),
    ];
    for (step, outcome, mark, note) in steps {
        let (said, next) = line(Subject::Tunnel, Protocol::Tcp, step, outcome);
        assert_eq!(said, format!("{mark}{note}"));
        assert_eq!(next, Step::ConnectTcp);
    }
    let steps = [
        (Outcome::Worked, OK, "TCP connect succeeded"),
        (failed(), FAIL, "TCP connect failed: no luck"),
        (Outcome::TimedOut, FAIL, "TCP connect timed out (3s)"),
    ];
    for (outcome, mark, note) in steps {
        let (said, next) = line(Subject::Tunnel, Protocol::Tcp, Step::ConnectTcp, outcome);
        assert_eq!(said, format!("{mark}{note}"));
        assert_eq!(next, Step::Done);
    }
}

#[test]
fn udp_is_probed_with_a_heartbeat() {
    assert_eq!(REPLY_SECONDS, 2);
    let steps = [
        (Step::BindUdp, "listen port unavailable: no luck"),
        (Step::BindProbe, "cannot create probe socket: no luck"),
        (Step::SendHeartbeat, "heartbeat send failed: no luck"),
    ];
    for (step, note) in steps {
        let (said, next) = line(Subject::Tunnel, Protocol::Udp, step, failed());
        assert_eq!(said, format!("{FAIL}{note}"));
        assert_eq!(next, Step::Done);
    }
    let steps = [
        (Step::BindUdp, Some("listen port available"), Step::BindProbe),
        (Step::BindProbe, None, Step::SendHeartbeat),
        (Step::SendHeartbeat, None, Step::AwaitReply),
    ];
    for (step, note, expected) in steps {
        let (said, next) = advance(
            Subject::Proxy,
            &tunnel(Protocol::Udp),
            step,
            &Outcome::Worked,
        );
        assert_eq!(said, note.map(|n| format!("{OK}{n}")));
        assert_eq!(next, expected);
    }
}

#[test]
fn replies_are_judged() {
    let steps = [
        (
            replied(&HEARTBEAT_MAGIC),
            OK,
            "heartbeat echo from 10.0.0.1:8888 (ipbridge running)",
        ),
        (
            replied(b"IPBZ"),
            WARN,
            "response from 10.0.0.1:8888 (4 bytes) not a valid heartbeat",
        ),
        (
            replied(b""),
            WARN,
            "response from 10.0.0.1:8888 (0 bytes) not a valid heartbeat",
        ),
        (failed(), WARN, "heartbeat receive error: no luck"),
    ];
    for (outcome, mark, note) in steps {
        let (said, next) = line(Subject::Tunnel, Protocol::Udp, Step::AwaitReply, outcome);
        assert_eq!(said, format!("{mark}{note}"));
        assert_eq!(next, Step::Done);
    }
}

#[test]
fn silence_means_less_for_a_tunnel_than_for_a_proxy() {
    let (said, next) = line(
        Subject::Tunnel,
        Protocol::Udp,
        Step::AwaitReply,
        Outcome::TimedOut,
    );
    assert_eq!(
        said,
        format!("{WARN}heartbeat: no response within 2s (this is normal if forward is not another ipbridge)")
    );
    assert_eq!(next, Step::Done);
    let (said, next) = line(
        Subject::Proxy,
        Protocol::Udp,
        Step::AwaitReply,
        Outcome::TimedOut,
    );
    assert_eq!(
        said,
        format!("{WARN}no heartbeat response within 2s (ipbridge may not be running on the remote end)")
    );
    assert_eq!(next, Step::Done);
}

#[test]
fn a_check_takes_the_same_steps_for_tunnels_and_proxies() {
    for subject in [Subject::Tunnel, Subject::Proxy] {
        for (protocol, expected) in [(Protocol::Tcp, 4), (Protocol::Udp, 6)] {
            let mut step = Step::ResolveListen;
            let mut taken = 0;
            let mut last = None;
            while step != Step::Done {
                let outcome = match step {
                    Step::ResolveListen | Step::ResolveForward => resolved("[::1]:1", false),
                    Step::AwaitReply => replied(&HEARTBEAT_MAGIC),
                    _ => Outcome::Worked,
                };
                let (said, next) = advance(subject, &tunnel(protocol), step, &outcome);
                last = said;
                step = next;
                taken += 1;
            }
            assert_eq!(taken, expected);
            assert!(last.unwrap().starts_with(OK));
        }
    }
}

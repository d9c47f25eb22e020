//! The connectivity check: which probes are made, in which order, and what is reported of each.
//!
//! The check is a list of steps. Whoever runs it performs a step, hands the outcome to `advance`,
//! prints the line that comes back, and goes on with the next step.

use crate::config::{Protocol, Tunnel, TunnelView};
use crate::text;
use crate::tunnel;
use vstd::prelude::*;
use vstd::string::*;

verus! {

/// What the check is about.
#[derive(Debug, Clone, Copy, PartialEq, Eq, Structural)]
pub enum Subject {
    /// A tunnel, whose target need not be another tunnel.
    Tunnel,
    /// A proxy, whose target is expected to be another one.
    Proxy,
}

/// A step of the check.
#[derive(Debug, Clone, Copy, PartialEq, Eq, Structural)]
pub enum Step {
    /// Resolve the address to listen on.
    ResolveListen,
    /// Resolve the address to forward to.
    ResolveForward,
    /// Listen for TCP connections, for a moment.
    BindTcp,
    /// Connect to the target within `CONNECT_SECONDS`.
    ConnectTcp,
    /// Listen for UDP datagrams, for a moment.
    BindUdp,
    /// Make a socket to probe with.
    BindProbe,
    /// Send a heartbeat to the target.
    SendHeartbeat,
    /// Wait `REPLY_SECONDS` for the heartbeat to come back.
    AwaitReply,
    /// Nothing is left to do.
    Done,
}

/// How long a connection may take.
pub const CONNECT_SECONDS: u64 = 3;

/// How long a heartbeat may take.
pub const REPLY_SECONDS: u64 = 2;

/// What came of a step.
#[derive(Debug)]
pub enum Outcome {
    /// The name has an address; `domain` tells that it is not one itself.
    Resolved { addr: String, domain: bool },
    /// The name has no address.
    Unresolved,
    /// It worked.
    Worked,
    /// It did not work, for this reason.
    Failed(String),
    /// It took too long.
    TimedOut,
    /// A datagram came back, cut to the length of a heartbeat.
    Replied { from: String, bytes: Vec<u8> },
}

/// What came of a step, with every text as characters.
pub enum OutcomeView {
    Resolved { addr: Seq<char>, domain: bool },
    Unresolved,
    Worked,
    Failed(Seq<char>),
    TimedOut,
    Replied { from: Seq<char>, bytes: Seq<u8> },
}

impl View for Outcome {
    type V = OutcomeView;

    open spec fn view(&self) -> OutcomeView {
        match self {
            Outcome::Resolved { addr, domain } => OutcomeView::Resolved {
                addr: addr@,
                domain: *domain,
            },
            Outcome::Unresolved => OutcomeView::Unresolved,
            Outcome::Worked => OutcomeView::Worked,
            Outcome::Failed(reason) => OutcomeView::Failed(reason@),
            Outcome::TimedOut => OutcomeView::TimedOut,
            Outcome::Replied { from, bytes } => OutcomeView::Replied { from: from@, bytes: bytes@ },
        }
    }
}

/// Whether a step can have an outcome.
pub open spec fn possible(step: Step, outcome: OutcomeView) -> bool {
    match step {
        Step::ResolveListen | Step::ResolveForward => outcome is Resolved || outcome is Unresolved,
        Step::ConnectTcp => outcome is Worked || outcome is Failed || outcome is TimedOut,
        Step::AwaitReply => outcome is Replied || outcome is Failed || outcome is TimedOut,
        Step::Done => false,
        _ => outcome is Worked || outcome is Failed,
    }
}

/// The step after this one.
pub open spec fn step_after(protocol: Protocol, step: Step, outcome: OutcomeView) -> Step {
    match (step, outcome) {
        (Step::ResolveListen, OutcomeView::Resolved { .. }) => Step::ResolveForward,
        (Step::ResolveForward, OutcomeView::Resolved { .. }) => match protocol {
            Protocol::Tcp => Step::BindTcp,
            Protocol::Udp => Step::BindUdp,
        },
        (Step::BindTcp, _) => Step::ConnectTcp,
        (Step::BindUdp, OutcomeView::Worked) => Step::BindProbe,
        (Step::BindProbe, OutcomeView::Worked) => Step::SendHeartbeat,
        (Step::SendHeartbeat, OutcomeView::Worked) => Step::AwaitReply,
        _ => Step::Done,
    }
}

/// A line about something that is in order.
pub open spec fn ok_line(note: Seq<char>) -> Seq<char> {
    "  \x1b[32m[ok]\x1b[0m "@ + note
}

/// A line about something that is not in order.
pub open spec fn fail_line(note: Seq<char>) -> Seq<char> {
    "  \x1b[31m[fail]\x1b[0m "@ + note
}

/// A line about something that may be in order.
pub open spec fn warn_line(note: Seq<char>) -> Seq<char> {
    "  \x1b[33m[warn]\x1b[0m "@ + note
}

/// What is said of an address that was found. Of a tunnel, the name is repeated where it is the
/// name of a domain.
pub open spec fn resolved_text(
    subject: Subject,
    side: Seq<char>,
    name: Seq<char>,
    addr: Seq<char>,
    domain: bool,
) -> Seq<char> {
    if subject == Subject::Tunnel && domain {
        side + " \""@ + name + "\" resolves to "@ + addr
    } else {
        side + " resolves to "@ + addr
    }
}

/// What is said where no heartbeat came back.
pub open spec fn silence_text(subject: Subject) -> Seq<char> {
    match subject {
        Subject::Tunnel =>
            "heartbeat: no response within 2s (this is normal if forward is not another ipbridge)"@,
        Subject::Proxy =>
            "no heartbeat response within 2s (ipbridge may not be running on the remote end)"@,
    }
}

/// The line that is reported of a reply to the heartbeat.
pub open spec fn reply_report(from: Seq<char>, bytes: Seq<u8>) -> Seq<char> {
    if bytes == tunnel::heartbeat() {
        ok_line("heartbeat echo from "@ + from + " (ipbridge running)"@)
    } else {
        warn_line(
            "response from "@ + from + " ("@ + text::decimal(bytes.len())
                + " bytes) not a valid heartbeat"@,
        )
    }
}

/// The line that is reported of a step, if any is.
pub open spec fn report(subject: Subject, tunnel: TunnelView, step: Step, outcome: OutcomeView) -> Option<
    Seq<char>,
> {
    match (step, outcome) {
        (Step::ResolveListen, OutcomeView::Resolved { addr, domain }) => Some(
            ok_line(resolved_text(subject, "listen"@, tunnel.listen, addr, domain)),
        ),
        (Step::ResolveListen, _) => Some(fail_line("listen DNS resolution failed"@)),
        (Step::ResolveForward, OutcomeView::Resolved { addr, domain }) => Some(
            ok_line(resolved_text(subject, "forward"@, tunnel.forward, addr, domain)),
        ),
        (Step::ResolveForward, _) => Some(fail_line("forward DNS resolution failed"@)),
        (Step::BindTcp | Step::BindUdp, OutcomeView::Failed(reason)) => Some(
            fail_line("listen port unavailable: "@ + reason),
        ),
        (Step::BindTcp | Step::BindUdp, _) => Some(ok_line("listen port available"@)),
        (Step::ConnectTcp, OutcomeView::Worked) => Some(ok_line("TCP connect succeeded"@)),
        (Step::ConnectTcp, OutcomeView::Failed(reason)) => Some(
            fail_line("TCP connect failed: "@ + reason),
        ),
        (Step::ConnectTcp, _) => Some(fail_line("TCP connect timed out (3s)"@)),
        (Step::BindProbe, OutcomeView::Failed(reason)) => Some(
            fail_line("cannot create probe socket: "@ + reason),
        ),
        (Step::SendHeartbeat, OutcomeView::Failed(reason)) => Some(
            fail_line("heartbeat send failed: "@ + reason),
        ),
        (Step::AwaitReply, OutcomeView::Replied { from, bytes }) => Some(
            reply_report(from, bytes),
        ),
        (Step::AwaitReply, OutcomeView::Failed(reason)) => Some(
            warn_line("heartbeat receive error: "@ + reason),
        ),
        (Step::AwaitReply, _) => Some(warn_line(silence_text(subject))),
        _ => None,
    }
}

fn ok(note: &str) -> (line: String)
    ensures
        line@ == ok_line(note@),
{
    let mut line = "  \x1b[32m[ok]\x1b[0m ".to_owned();
    line.append(note);
    line
}

fn fail(note: &str) -> (line: String)
    ensures
        line@ == fail_line(note@),
{
    let mut line = "  \x1b[31m[fail]\x1b[0m ".to_owned();
    line.append(note);
    line
}

fn warn(note: &str) -> (line: String)
    ensures
        line@ == warn_line(note@),
{
    let mut line = "  \x1b[33m[warn]\x1b[0m ".to_owned();
    line.append(note);
    line
}

/// A failure and its reason.
fn fail_because(what: &str, reason: &str) -> (line: String)
    ensures
        line@ == fail_line(what@ + reason@),
{
    let mut note = what.to_owned();
    note.append(reason);
    fail(note.as_str())
}

fn resolved_note(subject: Subject, side: &str, name: &str, addr: &str, domain: bool) -> (note:
    String)
    ensures
        note@ == resolved_text(subject, side@, name@, addr@, domain),
{
    let mut note = side.to_owned();
    if subject == Subject::Tunnel && domain {
        note.append(" \"");
        note.append(name);
        note.append("\" resolves to ");
    } else {
        note.append(" resolves to ");
    }
    note.append(addr);
    note
}

fn reply_line(from: &str, bytes: &Vec<u8>) -> (line: String)
    ensures
        line@ == reply_report(from@, bytes@),
{
    if tunnel::is_heartbeat(bytes.as_slice()) {
        let mut note = "heartbeat echo from ".to_owned();
        note.append(from);
        note.append(" (ipbridge running)");
        ok(note.as_str())
    } else {
        let mut note = "response from ".to_owned();
        note.append(from);
        note.append(" (");
        note.append(text::decimal_text(bytes.len() as u64).as_str());
        note.append(" bytes) not a valid heartbeat");
        warn(note.as_str())
    }
}

/// The line to print for the outcome of a step, if any, and the step to go on with.
pub fn advance(subject: Subject, tunnel: &Tunnel, step: Step, outcome: &Outcome) -> (result: (
    Option<String>,
    Step,
))
    requires
        possible(step, outcome@),
    ensures
        match result.0 {
            Some(line) => report(subject, tunnel@, step, outcome@) == Some(line@),
            None => report(subject, tunnel@, step, outcome@) is None,
        },
        result.1 == step_after(tunnel.protocol, step, outcome@),
{
    match (step, outcome) {
        (Step::ResolveListen, Outcome::Resolved { addr, domain }) => {
            let note = resolved_note(
                subject,
                "listen",
                tunnel.listen.as_str(),
                addr.as_str(),
                *domain,
            );
            (Some(ok(note.as_str())), Step::ResolveForward)
        },
        (Step::ResolveListen, _) => (Some(fail("listen DNS resolution failed")), Step::Done),
        (Step::ResolveForward, Outcome::Resolved { addr, domain }) => {
            let note = resolved_note(
                subject,
                "forward",
                tunnel.forward.as_str(),
                addr.as_str(),
                *domain,
            );
            let next = match tunnel.protocol {
                Protocol::Tcp => Step::BindTcp,
                Protocol::Udp => Step::BindUdp,
            };
            (Some(ok(note.as_str())), next)
        },
        (Step::ResolveForward, _) => (Some(fail("forward DNS resolution failed")), Step::Done),
        (Step::BindTcp, Outcome::Failed(reason)) => {
            (Some(fail_because("listen port unavailable: ", reason.as_str())), Step::ConnectTcp)
        },
        (Step::BindTcp, _) => (Some(ok("listen port available")), Step::ConnectTcp),
        (Step::BindUdp, Outcome::Failed(reason)) => {
            (Some(fail_because("listen port unavailable: ", reason.as_str())), Step::Done)
        },
        (Step::BindUdp, _) => (Some(ok("listen port available")), Step::BindProbe),
        (Step::ConnectTcp, Outcome::Worked) => (Some(ok("TCP connect succeeded")), Step::Done),
        (Step::ConnectTcp, Outcome::Failed(reason)) => {
            (Some(fail_because("TCP connect failed: ", reason.as_str())), Step::Done)
        },
        (Step::ConnectTcp, _) => (Some(fail("TCP connect timed out (3s)")), Step::Done),
        (Step::BindProbe, Outcome::Failed(reason)) => {
            (Some(fail_because("cannot create probe socket: ", reason.as_str())), Step::Done)
        },
        (Step::BindProbe, _) => (None, Step::SendHeartbeat),
        (Step::SendHeartbeat, Outcome::Failed(reason)) => {
            (Some(fail_because("heartbeat send failed: ", reason.as_str())), Step::Done)
        },
        (Step::SendHeartbeat, _) => (None, Step::AwaitReply),
        (Step::AwaitReply, Outcome::Replied { from, bytes }) => {
            (Some(reply_line(from.as_str(), bytes)), Step::Done)
        },
        (Step::AwaitReply, Outcome::Failed(reason)) => {
            let mut note = "heartbeat receive error: ".to_owned();
            note.append(reason.as_str());
            (Some(warn(note.as_str())), Step::Done)
        },
        (Step::AwaitReply, _) => {
            let line = match subject {
                Subject::Tunnel => warn(
                    "heartbeat: no response within 2s (this is normal if forward is not another ipbridge)",
                ),
                Subject::Proxy => warn(
                    "no heartbeat response within 2s (ipbridge may not be running on the remote end)",
                ),
            };
            (Some(line), Step::Done)
        },
        (Step::Done, _) => (None, Step::Done),
    }
}

/// How many steps may still follow, at most.
pub open spec fn steps_left(step: Step) -> nat {
    match step {
        Step::ResolveListen => 6,
        Step::ResolveForward => 5,
        Step::BindUdp => 4,
        Step::BindProbe => 3,
        Step::SendHeartbeat => 2,
        Step::BindTcp => 2,
        Step::AwaitReply => 1,
        Step::ConnectTcp => 1,
        Step::Done => 0,
    }
}

/// Every check ends, and not without a word: each step brings it closer to its end, and the
/// step that ends it has a line reported.
pub proof fn law_check_ends_with_a_line(
    subject: Subject,
    tunnel: TunnelView,
    step: Step,
    outcome: OutcomeView,
)
    requires
        possible(step, outcome),
    ensures
        steps_left(step_after(tunnel.protocol, step, outcome)) < steps_left(step),
        step_after(tunnel.protocol, step, outcome) == Step::Done ==> report(
            subject,
            tunnel,
            step,
            outcome,
        ) is Some,
{
}

/// A tunnel that is running is recognised: the heartbeat that it sends back is reported as such.
pub proof fn law_running_tunnel_is_recognised(
    subject: Subject,
    tunnel: TunnelView,
    from: Seq<char>,
)
    ensures
        report(
            subject,
            tunnel,
            Step::AwaitReply,
            OutcomeView::Replied { from, bytes: tunnel::heartbeat() },
        ) == Some(ok_line("heartbeat echo from "@ + from + " (ipbridge running)"@)),
{
}

/// The three marks that a line can start with are told apart by their sixth character.
proof fn lemma_marks()
    ensures
        "  \x1b[32m[ok]\x1b[0m "@.len() == 16,
        "  \x1b[31m[fail]\x1b[0m "@.len() == 18,
        "  \x1b[33m[warn]\x1b[0m "@.len() == 18,
        "  \x1b[32m[ok]\x1b[0m "@[5] == '2',
        "  \x1b[31m[fail]\x1b[0m "@[5] == '1',
        "  \x1b[33m[warn]\x1b[0m "@[5] == '3',
{
    reveal_strlit("  \x1b[32m[ok]\x1b[0m ");
    reveal_strlit("  \x1b[31m[fail]\x1b[0m ");
    reveal_strlit("  \x1b[33m[warn]\x1b[0m ");
}

/// Whether a line is marked as being in order.
pub open spec fn says_ok(line: Option<Seq<char>>) -> bool {
    line is Some && "  \x1b[32m[ok]\x1b[0m "@.is_prefix_of(line->0)
}

/// Whether a line is marked as not being in order.
pub open spec fn says_fail(line: Option<Seq<char>>) -> bool {
    line is Some && "  \x1b[31m[fail]\x1b[0m "@.is_prefix_of(line->0)
}

/// Whether a line is marked as being open.
pub open spec fn says_warn(line: Option<Seq<char>>) -> bool {
    line is Some && "  \x1b[33m[warn]\x1b[0m "@.is_prefix_of(line->0)
}

/// A line says one thing only.
proof fn lemma_one_mark(line: Option<Seq<char>>)
    ensures
        !(says_ok(line) && says_fail(line)),
        !(says_ok(line) && says_warn(line)),
        !(says_fail(line) && says_warn(line)),
{
    lemma_marks();
    if line is Some {
        let l = line->0;
        if says_ok(line) {
            assert(l.subrange(0, 16)[5] == l[5]);
        }
        if says_fail(line) || says_warn(line) {
            assert(l.subrange(0, 18)[5] == l[5]);
        }
    }
}

proof fn lemma_marked(note: Seq<char>)
    ensures
        says_ok(Some(ok_line(note))),
        says_fail(Some(fail_line(note))),
        says_warn(Some(warn_line(note))),
        note.is_suffix_of(ok_line(note)),
        note.is_suffix_of(fail_line(note)),
        note.is_suffix_of(warn_line(note)),
{
    lemma_marks();
    assert(ok_line(note).subrange(0, 16) =~= "  \x1b[32m[ok]\x1b[0m "@);
    assert(fail_line(note).subrange(0, 18) =~= "  \x1b[31m[fail]\x1b[0m "@);
    assert(warn_line(note).subrange(0, 18) =~= "  \x1b[33m[warn]\x1b[0m "@);
    assert(ok_line(note).subrange(16, 16 + note.len() as int) =~= note);
    assert(fail_line(note).subrange(18, 18 + note.len() as int) =~= note);
    assert(warn_line(note).subrange(18, 18 + note.len() as int) =~= note);
}

/// A step is reported to be in order exactly where it was: where a name had an address, where
/// something that is reported worked, and where the heartbeat itself came back.
pub proof fn law_only_success_is_reported_as_such(
    subject: Subject,
    tunnel: TunnelView,
    step: Step,
    outcome: OutcomeView,
)
    requires
        possible(step, outcome),
    ensures
        says_ok(report(subject, tunnel, step, outcome)) <==> match outcome {
            OutcomeView::Resolved { .. } => true,
            OutcomeView::Worked => step == Step::BindTcp || step == Step::BindUdp || step
                == Step::ConnectTcp,
            OutcomeView::Replied { bytes, .. } => bytes == seq![0x49u8, 0x50u8, 0x42u8, 0x52u8],
            _ => false,
        },
        says_fail(report(subject, tunnel, step, outcome)) <==> match outcome {
            OutcomeView::Unresolved => true,
            OutcomeView::Failed(_) => step != Step::AwaitReply,
            OutcomeView::TimedOut => step == Step::ConnectTcp,
            _ => false,
        },
        says_warn(report(subject, tunnel, step, outcome)) <==> match outcome {
            OutcomeView::Replied { bytes, .. } => bytes != seq![0x49u8, 0x50u8, 0x42u8, 0x52u8],
            OutcomeView::Failed(_) => step == Step::AwaitReply,
            OutcomeView::TimedOut => step == Step::AwaitReply,
            _ => false,
        },
        report(subject, tunnel, step, outcome) is None <==> outcome is Worked && (step
            == Step::BindProbe || step == Step::SendHeartbeat),
{
    let line = report(subject, tunnel, step, outcome);
    lemma_one_mark(line);
    if line is Some {
        let l = line->0;
        let ok = choose|note: Seq<char>| l == ok_line(note);
        let fail = choose|note: Seq<char>| l == fail_line(note);
        let warn = choose|note: Seq<char>| l == warn_line(note);
        lemma_marked(ok);
        lemma_marked(fail);
        lemma_marked(warn);
    }
}

/// A failure is reported with its reason, whatever the reason: the line ends with it, and what
/// stands before it is the same for all reasons.
pub proof fn law_failures_are_reported_with_their_reason(
    subject: Subject,
    tunnel: TunnelView,
    step: Step,
    reason: Seq<char>,
)
    requires
        possible(step, OutcomeView::Failed(reason)),
    ensures
        ({
            let line = report(subject, tunnel, step, OutcomeView::Failed(reason));
            let bare = report(subject, tunnel, step, OutcomeView::Failed(Seq::empty()));
            &&& line is Some && bare is Some
            &&& line->0 == bare->0 + reason
            &&& step != Step::AwaitReply ==> says_fail(line) && says_fail(bare)
            &&& step == Step::AwaitReply ==> says_warn(line) && says_warn(bare)
        }),
{
    let line = report(subject, tunnel, step, OutcomeView::Failed(reason));
    let bare = report(subject, tunnel, step, OutcomeView::Failed(Seq::empty()));
    law_only_success_is_reported_as_such(subject, tunnel, step, OutcomeView::Failed(reason));
    law_only_success_is_reported_as_such(subject, tunnel, step, OutcomeView::Failed(Seq::empty()));
    assert(line->0 =~= bare->0 + reason);
}

/// What a name was resolved to stands at the end of the line. A tunnel's line names a domain
/// before it; every other line is the same whatever the name is.
pub proof fn law_addresses_are_reported(
    subject: Subject,
    tunnel: TunnelView,
    other: TunnelView,
    addr: Seq<char>,
    domain: bool,
)
    ensures
        ({
            let outcome = OutcomeView::Resolved { addr, domain };
            let bare = OutcomeView::Resolved { addr: Seq::empty(), domain };
            let listen = report(subject, tunnel, Step::ResolveListen, outcome)->0;
            let forward = report(subject, tunnel, Step::ResolveForward, outcome)->0;
            &&& listen == report(subject, tunnel, Step::ResolveListen, bare)->0 + addr
            &&& forward == report(subject, tunnel, Step::ResolveForward, bare)->0 + addr
            &&& ok_line("listen"@).is_prefix_of(listen)
            &&& ok_line("forward"@).is_prefix_of(forward)
            &&& if subject == Subject::Tunnel && domain {
                &&& (" \""@ + tunnel.listen + "\" resolves to "@ + addr).is_suffix_of(listen)
                &&& (" \""@ + tunnel.forward + "\" resolves to "@ + addr).is_suffix_of(forward)
                &&& listen.len() - tunnel.listen.len() == report(
                    subject,
                    other,
                    Step::ResolveListen,
                    outcome,
                )->0.len() - other.listen.len()
                &&& forward.len() - tunnel.forward.len() == report(
                    subject,
                    other,
                    Step::ResolveForward,
                    outcome,
                )->0.len() - other.forward.len()
            } else {
                &&& report(subject, other, Step::ResolveListen, outcome) == Some(listen)
                &&& report(subject, other, Step::ResolveForward, outcome) == Some(forward)
            }
        }),
{
    let outcome = OutcomeView::Resolved { addr, domain };
    let bare = OutcomeView::Resolved { addr: Seq::empty(), domain };
    let listen = report(subject, tunnel, Step::ResolveListen, outcome)->0;
    let forward = report(subject, tunnel, Step::ResolveForward, outcome)->0;
    assert(listen =~= report(subject, tunnel, Step::ResolveListen, bare)->0 + addr);
    assert(forward =~= report(subject, tunnel, Step::ResolveForward, bare)->0 + addr);
    assert(listen.subrange(0, ok_line("listen"@).len() as int) =~= ok_line("listen"@));
    assert(forward.subrange(0, ok_line("forward"@).len() as int) =~= ok_line("forward"@));
    if subject == Subject::Tunnel && domain {
        let l = " \""@ + tunnel.listen + "\" resolves to "@ + addr;
        let f = " \""@ + tunnel.forward + "\" resolves to "@ + addr;
        assert(listen.subrange(listen.len() - l.len(), listen.len() as int) =~= l);
        assert(forward.subrange(forward.len() - f.len(), forward.len() as int) =~= f);
    }
}

/// The sender of a reply is named, whatever it is, and so is the length of a reply that is no
/// heartbeat; what kind of reply it was does not depend on the sender.
pub proof fn law_replies_are_reported_with_their_sender(
    subject: Subject,
    tunnel: TunnelView,
    from: Seq<char>,
    bytes: Seq<u8>,
)
    ensures
        ({
            let line = report(
                subject,
                tunnel,
                Step::AwaitReply,
                OutcomeView::Replied { from, bytes },
            )->0;
            if bytes == seq![0x49u8, 0x50u8, 0x42u8, 0x52u8] {
                &&& (from + " (ipbridge running)"@).is_suffix_of(line)
                &&& line.len() == ok_line("heartbeat echo from "@).len() + from.len()
                    + " (ipbridge running)"@.len()
                &&& ok_line("heartbeat echo from "@).is_prefix_of(line)
            } else {
                let tail = from + " ("@ + text::decimal(bytes.len())
                    + " bytes) not a valid heartbeat"@;
                &&& tail.is_suffix_of(line)
                &&& warn_line("response from "@).is_prefix_of(line)
                &&& line.len() == warn_line("response from "@).len() + tail.len()
            }
        }),
{
    let line = report(subject, tunnel, Step::AwaitReply, OutcomeView::Replied { from, bytes })->0;
    if bytes == seq![0x49u8, 0x50u8, 0x42u8, 0x52u8] {
        let head = ok_line("heartbeat echo from "@);
        let tail = from + " (ipbridge running)"@;
        assert(line =~= head + tail);
        assert(line.subrange(0, head.len() as int) =~= head);
        assert(line.subrange(line.len() - tail.len(), line.len() as int) =~= tail);
    } else {
        let head = warn_line("response from "@);
        let tail = from + " ("@ + text::decimal(bytes.len()) + " bytes) not a valid heartbeat"@;
        assert(line =~= head + tail);
        assert(line.subrange(0, head.len() as int) =~= head);
        assert(line.subrange(line.len() - tail.len(), line.len() as int) =~= tail);
    }
}

/// Where a check goes on depends on whether the step worked, and on nothing that was said about
/// it. It goes on wherever the step worked and another is left for the protocol; after a failure
/// it goes on only from listening for TCP connections, to the attempt to connect.
pub proof fn law_check_goes_on_where_it_can(
    protocol: Protocol,
    step: Step,
    outcome: OutcomeView,
    other: OutcomeView,
)
    requires
        possible(step, outcome),
        possible(step, other),
    ensures
        ({
            let went_well = |o: OutcomeView| o is Resolved || o is Worked || o is Replied;
            let next = step_after(protocol, step, outcome);
            let last = step == Step::ConnectTcp || step == Step::AwaitReply;
            &&& went_well(outcome) == went_well(other) ==> next == step_after(protocol, step, other)
            &&& went_well(outcome) ==> (next == Step::Done <==> last)
            &&& !went_well(outcome) ==> (next != Step::Done <==> step == Step::BindTcp)
            &&& next == Step::BindTcp ==> protocol == Protocol::Tcp
            &&& next == Step::BindUdp ==> protocol == Protocol::Udp
            &&& step == Step::BindTcp ==> next == Step::ConnectTcp
            &&& step == Step::ResolveListen && went_well(outcome) ==> next == Step::ResolveForward
            &&& step == Step::BindUdp && went_well(outcome) ==> next == Step::BindProbe
            &&& step == Step::BindProbe && went_well(outcome) ==> next == Step::SendHeartbeat
            &&& step == Step::SendHeartbeat && went_well(outcome) ==> next == Step::AwaitReply
            &&& step == Step::ResolveForward && went_well(outcome) ==> next == Step::BindTcp || next
                == Step::BindUdp
        }),
{
}

/// A tunnel and a proxy are checked alike: only a domain and silence are spoken of differently.
pub proof fn law_subjects_are_checked_alike(tunnel: TunnelView, step: Step, outcome: OutcomeView)
    requires
        possible(step, outcome),
        !(outcome matches OutcomeView::Resolved { domain, .. } && domain),
        !(step == Step::AwaitReply && outcome is TimedOut),
    ensures
        report(Subject::Tunnel, tunnel, step, outcome) == report(
            Subject::Proxy,
            tunnel,
            step,
            outcome,
        ),
{
}

/// Past the addresses, what is reported does not depend on the tunnel; and a proxy's addresses
/// are reported alike whether they were given as a domain or not.
pub proof fn law_probes_are_reported_alike(
    subject: Subject,
    tunnel: TunnelView,
    other: TunnelView,
    step: Step,
    outcome: OutcomeView,
    addr: Seq<char>,
)
    ensures
        step != Step::ResolveListen && step != Step::ResolveForward ==> report(
            subject,
            tunnel,
            step,
            outcome,
        ) == report(subject, other, step, outcome),
        outcome is Unresolved ==> report(subject, tunnel, step, outcome) == report(
            subject,
            other,
            step,
            outcome,
        ),
        report(Subject::Proxy, tunnel, step, OutcomeView::Resolved { addr, domain: true })
            == report(Subject::Proxy, tunnel, step, OutcomeView::Resolved { addr, domain: false }),
{
}

/// What an outcome is seen as is what it holds.
pub proof fn law_view_of_an_outcome(text: String, domain: bool, bytes: Vec<u8>)
    ensures
        (Outcome::Resolved { addr: text, domain })@ == (OutcomeView::Resolved {
            addr: text@,
            domain,
        }),
        Outcome::Unresolved@ == OutcomeView::Unresolved,
        Outcome::Worked@ == OutcomeView::Worked,
        Outcome::Failed(text)@ == OutcomeView::Failed(text@),
        Outcome::TimedOut@ == OutcomeView::TimedOut,
        (Outcome::Replied { from: text, bytes })@ == (OutcomeView::Replied {
            from: text@,
            bytes: bytes@,
        }),
{
}

} // verus!

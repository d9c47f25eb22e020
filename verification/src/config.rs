//! The tunnels that a configuration asks for.
//!
//! A tunnel may map a range of ports; such a tunnel stands for one tunnel per port.

use crate::text;
use vstd::prelude::*;
use vstd::string::*;

verus! {

#[derive(Debug, Clone, Copy, PartialEq, Eq, Structural)]
pub enum Protocol {
    Tcp,
    Udp,
}

#[derive(Debug)]
pub struct Tunnel {
    pub protocol: Protocol,
    pub listen: String,
    pub forward: String,
    pub enable: bool,
}

/// What a tunnel says, with its addresses as characters.
pub struct TunnelView {
    pub protocol: Protocol,
    pub listen: Seq<char>,
    pub forward: Seq<char>,
    pub enable: bool,
}

impl View for Tunnel {
    type V = TunnelView;

    open spec fn view(&self) -> TunnelView {
        TunnelView {
            protocol: self.protocol,
            listen: self.listen@,
            forward: self.forward@,
            enable: self.enable,
        }
    }
}

impl Clone for Tunnel {
    fn clone(&self) -> (copy: Self)
        ensures
            copy@ == self@,
    {
        Tunnel {
            protocol: self.protocol,
            listen: self.listen.clone(),
            forward: self.forward.clone(),
            enable: self.enable,
        }
    }
}

#[derive(Debug)]
pub struct TunnelConfig {
    pub tunnel: Vec<Tunnel>,
}

/// What each of some tunnels says.
pub open spec fn views(tunnels: Seq<Tunnel>) -> Seq<TunnelView> {
    tunnels.map_values(|t: Tunnel| t@)
}

impl View for TunnelConfig {
    type V = Seq<TunnelView>;

    open spec fn view(&self) -> Seq<TunnelView> {
        views(self.tunnel@)
    }
}

/// The configuration that a new user starts from.
pub const TEMPLATE: &'static str = "# 配置模板 (TOML)

# UDP 隧道
[[tunnel]]
protocol = \"udp\"
listen = \"[::]:7777\"
forward = \"127.0.0.1:8888\"
enable = true

# TCP 隧道
# [[tunnel]]
# protocol = \"tcp\"
# listen = \"0.0.0.0:9000\"
# forward = \"10.0.0.5:9000\"
# enable = true

# 端口范围映射
# [[tunnel]]
# protocol = \"udp\"
# listen = \"[::]:7777-7780\"
# forward = \"127.0.0.1:8888-8891\"
# enable = true
";

/// Whether a tunnel is enabled where the configuration does not say.
pub fn default_enable_true() -> (enable: bool)
    ensures
        enable,
{
    true
}

/// Why a configuration is refused.
#[derive(Debug)]
pub enum ConfigError {
    InvalidIpv6(String),
    MissingPort(String),
    InvalidPort(String),
    RangeReversed(String),
    RangeOneSided(String, String),
    RangeCountMismatch(u16, u16),
    TemplateExists(String),
}

/// Why a configuration is refused, with every text as characters.
pub enum ConfigFault {
    InvalidIpv6(Seq<char>),
    MissingPort(Seq<char>),
    InvalidPort(Seq<char>),
    RangeReversed(Seq<char>),
    RangeOneSided(Seq<char>, Seq<char>),
    RangeCountMismatch(int, int),
    TemplateExists(Seq<char>),
}

impl View for ConfigError {
    type V = ConfigFault;

    open spec fn view(&self) -> ConfigFault {
        match self {
            ConfigError::InvalidIpv6(address) => ConfigFault::InvalidIpv6(address@),
            ConfigError::MissingPort(address) => ConfigFault::MissingPort(address@),
            ConfigError::InvalidPort(reason) => ConfigFault::InvalidPort(reason@),
            ConfigError::RangeReversed(range) => ConfigFault::RangeReversed(range@),
            ConfigError::RangeOneSided(listen, forward) => ConfigFault::RangeOneSided(
                listen@,
                forward@,
            ),
            ConfigError::RangeCountMismatch(listen, forward) => ConfigFault::RangeCountMismatch(
                *listen as int,
                *forward as int,
            ),
            ConfigError::TemplateExists(path) => ConfigFault::TemplateExists(path@),
        }
    }
}

/// What is said of a fault.
pub open spec fn fault_text(fault: ConfigFault) -> Seq<char> {
    match fault {
        ConfigFault::InvalidIpv6(address) => "Invalid IPv6 address format: "@ + address,
        ConfigFault::MissingPort(address) => "Missing port in address: "@ + address,
        ConfigFault::InvalidPort(reason) => reason,
        ConfigFault::RangeReversed(range) => "Port range start > end: "@ + range,
        ConfigFault::RangeOneSided(listen, forward) =>
            "Port range must be specified on both listen and forward: "@ + listen + " -> "@
                + forward,
        ConfigFault::RangeCountMismatch(listen, forward) => "Port range count mismatch: "@
            + text::decimal(listen as nat) + " ports in listen, "@ + text::decimal(forward as nat)
            + " in forward"@,
        ConfigFault::TemplateExists(path) => path
            + " already exists. Use --force to overwrite."@,
    }
}

impl ConfigError {
    pub fn message(&self) -> (message: String)
        ensures
            message@ == fault_text(self@),
    {
        match self {
            ConfigError::InvalidIpv6(address) => {
                let mut message = "Invalid IPv6 address format: ".to_owned();
                message.append(address.as_str());
                message
            },
            ConfigError::MissingPort(address) => {
                let mut message = "Missing port in address: ".to_owned();
                message.append(address.as_str());
                message
            },
            ConfigError::InvalidPort(reason) => reason.clone(),
            ConfigError::RangeReversed(range) => {
                let mut message = "Port range start > end: ".to_owned();
                message.append(range.as_str());
                message
            },
            ConfigError::RangeOneSided(listen, forward) => {
                let mut message =
                    "Port range must be specified on both listen and forward: ".to_owned();
                message.append(listen.as_str());
                message.append(" -> ");
                message.append(forward.as_str());
                message
            },
            ConfigError::RangeCountMismatch(listen, forward) => {
                let mut message = "Port range count mismatch: ".to_owned();
                message.append(text::decimal_text(*listen as u64).as_str());
                message.append(" ports in listen, ");
                message.append(text::decimal_text(*forward as u64).as_str());
                message.append(" in forward");
                message
            },
            ConfigError::TemplateExists(path) => {
                let mut message = path.clone();
                message.append(" already exists. Use --force to overwrite.");
                message
            },
        }
    }
}

/// The host and the port of an address. The host of an IPv6 address stands in brackets, which
/// stay with it; the port follows the last colon that can be its own.
pub open spec fn address_parts(s: Seq<char>) -> Result<(Seq<char>, Seq<char>), ConfigFault> {
    if s.len() > 0 && s[0] == '[' {
        match text::last_of(s, seq![']', ':']) {
            Some(i) => Ok((s.take(i + 1), s.skip(i + 2))),
            None => Err(ConfigFault::InvalidIpv6(s)),
        }
    } else {
        match text::last_of(s, seq![':']) {
            Some(i) => Ok((s.take(i), s.skip(i + 1))),
            None => Err(ConfigFault::MissingPort(s)),
        }
    }
}

pub fn split_addr_port(s: &str) -> (parts: Result<(&str, &str), ConfigError>)
    ensures
        match parts {
            Ok((host, port)) => address_parts(s@) == Ok::<_, ConfigFault>((host@, port@)),
            Err(e) => address_parts(s@) == Err::<(Seq<char>, Seq<char>), _>(e@),
        },
{
    let chars = text::chars_of(s);
    let n: usize = chars.len();
    if n > 0 && chars[0] == '[' {
        match text::find_last_pair(&chars, ']', ':') {
            Some(i) => {
                assert(s@.skip(i + 2) =~= s@.subrange(i + 2, n as int));
                Ok((s.substring_char(0, i + 1), s.substring_char(i + 2, n)))
            },
            None => Err(ConfigError::InvalidIpv6(s.to_owned())),
        }
    } else {
        match text::find_last(&chars, ':') {
            Some(i) => {
                assert(s@.skip(i + 1) =~= s@.subrange(i + 1, n as int));
                Ok((s.substring_char(0, i), s.substring_char(i + 1, n)))
            },
            None => Err(ConfigError::MissingPort(s.to_owned())),
        }
    }
}

/// The first and the last port of `s`, which is one port or two with a `-` between them.
pub open spec fn port_range(s: Seq<char>) -> Result<(u16, u16), ConfigFault> {
    match text::first_of(s, '-') {
        Some(i) => {
            let from = s.take(i);
            let to = s.skip(i + 1);
            if text::port_value(from) is None {
                Err(ConfigFault::InvalidPort(text::port_error(from)))
            } else if text::port_value(to) is None {
                Err(ConfigFault::InvalidPort(text::port_error(to)))
            } else if text::port_value(from)->0 > text::port_value(to)->0 {
                Err(ConfigFault::RangeReversed(s))
            } else {
                Ok((text::port_value(from)->0, text::port_value(to)->0))
            }
        },
        None => match text::port_value(s) {
            Some(port) => Ok((port, port)),
            None => Err(ConfigFault::InvalidPort(text::port_error(s))),
        },
    }
}

pub fn parse_port_range(s: &str) -> (range: Result<(u16, u16), ConfigError>)
    ensures
        match range {
            Ok(r) => port_range(s@) == Ok::<_, ConfigFault>(r) && r.0 <= r.1,
            Err(e) => port_range(s@) == Err::<(u16, u16), _>(e@),
        },
{
    let chars = text::chars_of(s);
    let n: usize = chars.len();
    match text::find_first(&chars, '-') {
        Some(i) => {
            assert(s@.skip(i + 1) =~= s@.subrange(i + 1, n as int));
            assert(s@.take(i as int) =~= s@.subrange(0, i as int));
            let start: u16 = match text::parse_port(s.substring_char(0, i)) {
                Ok(port) => port,
                Err(e) => return Err(ConfigError::InvalidPort(e)),
            };
            let end: u16 = match text::parse_port(s.substring_char(i + 1, n)) {
                Ok(port) => port,
                Err(e) => return Err(ConfigError::InvalidPort(e)),
            };
            if start > end {
                return Err(ConfigError::RangeReversed(s.to_owned()));
            }
            Ok((start, end))
        },
        None => match text::parse_port(s) {
            Ok(port) => Ok((port, port)),
            Err(e) => Err(ConfigError::InvalidPort(e)),
        },
    }
}

/// An address out of a host and a port number.
pub open spec fn with_port(host: Seq<char>, port: int) -> Seq<char> {
    host + ":"@ + text::decimal(port as nat)
}

fn join_port(host: &str, port: u16) -> (address: String)
    ensures
        address@ == with_port(host@, port as int),
{
    let mut address = host.to_owned();
    address.append(":");
    address.append(text::decimal_text(port as u64).as_str());
    address
}

/// The number of ports in a range.
pub open spec fn port_count(range: (u16, u16)) -> int {
    range.1 - range.0 + 1
}

/// The tunnel for the `i`-th port of a mapping between two ranges.
pub open spec fn mapped_tunnel(
    t: TunnelView,
    listen_host: Seq<char>,
    listen_from: int,
    forward_host: Seq<char>,
    forward_from: int,
    i: int,
) -> TunnelView {
    TunnelView {
        protocol: t.protocol,
        listen: with_port(listen_host, listen_from + i),
        forward: with_port(forward_host, forward_from + i),
        enable: t.enable,
    }
}

/// The tunnels that one tunnel stands for: itself where it maps single ports, else one for each
/// port of the two ranges, which must be equally long.
pub open spec fn expand_one(t: TunnelView) -> Result<Seq<TunnelView>, ConfigFault> {
    match (address_parts(t.listen), address_parts(t.forward)) {
        (Err(fault), _) => Err(fault),
        (_, Err(fault)) => Err(fault),
        (Ok((listen_host, listen_port)), Ok((forward_host, forward_port))) => {
            let listen_ranges = listen_port.contains('-');
            let forward_ranges = forward_port.contains('-');
            if !listen_ranges && !forward_ranges {
                Ok(seq![t])
            } else if listen_ranges != forward_ranges {
                Err(ConfigFault::RangeOneSided(t.listen, t.forward))
            } else {
                match (port_range(listen_port), port_range(forward_port)) {
                    (Err(fault), _) => Err(fault),
                    (_, Err(fault)) => Err(fault),
                    (Ok(l), Ok(f)) => if port_count(l) != port_count(f) {
                        Err(ConfigFault::RangeCountMismatch(port_count(l), port_count(f)))
                    } else {
                        Ok(
                            Seq::new(
                                port_count(l) as nat,
                                |i: int|
                                    mapped_tunnel(
                                        t,
                                        listen_host,
                                        l.0 as int,
                                        forward_host,
                                        f.0 as int,
                                        i,
                                    ),
                            ),
                        )
                    },
                }
            }
        },
    }
}

/// The tunnels that some tunnels stand for, or the first fault among them.
pub open spec fn expand_all(ts: Seq<TunnelView>) -> Result<Seq<TunnelView>, ConfigFault>
    decreases ts.len(),
{
    if ts.len() == 0 {
        Ok(Seq::empty())
    } else {
        match expand_all(ts.drop_last()) {
            Err(fault) => Err(fault),
            Ok(before) => match expand_one(ts.last()) {
                Err(fault) => Err(fault),
                Ok(more) => Ok(before + more),
            },
        }
    }
}

/// Whether the ports of a tunnel are too many to count in sixteen bits: a range over every port
/// there is.
pub open spec fn too_wide(t: TunnelView) -> bool {
    match (address_parts(t.listen), address_parts(t.forward)) {
        (Ok((_, listen_port)), Ok((_, forward_port))) => {
            &&& listen_port.contains('-')
            &&& forward_port.contains('-')
            &&& match (port_range(listen_port), port_range(forward_port)) {
                (Ok(l), Ok(f)) => port_count(l) > 0xffff || port_count(f) > 0xffff,
                _ => false,
            }
        },
        _ => false,
    }
}

/// Whether no tunnel that an expansion comes to is too wide.
pub open spec fn expandable(ts: Seq<TunnelView>) -> bool {
    forall|i: int|
        0 <= i < ts.len() && expand_all(#[trigger] ts.take(i)) is Ok ==> !too_wide(ts[i])
}

fn has_range(port: &str) -> (yes: bool)
    ensures
        yes == port@.contains('-'),
{
    let chars = text::chars_of(port);
    let found = text::find_first(&chars, '-');
    proof {
        text::lemma_first_of(port@, '-');
    }
    found.is_some()
}

/// The tunnels that one tunnel stands for.
pub fn expand_tunnel(tunnel: &Tunnel) -> (expanded: Result<Vec<Tunnel>, ConfigError>)
    requires
        !too_wide(tunnel@),
    ensures
        match expanded {
            Ok(ts) => expand_one(tunnel@) == Ok::<_, ConfigFault>(views(ts@)),
            Err(e) => expand_one(tunnel@) == Err::<Seq<TunnelView>, _>(e@),
        },
{
    let (listen_base, listen_port) = match split_addr_port(tunnel.listen.as_str()) {
        Ok(parts) => parts,
        Err(e) => return Err(e),
    };
    let (forward_base, forward_port) = match split_addr_port(tunnel.forward.as_str()) {
        Ok(parts) => parts,
        Err(e) => return Err(e),
    };
    let has_lr = has_range(listen_port);
    let has_fr = has_range(forward_port);
    let mut expanded: Vec<Tunnel> = Vec::new();
    if !has_lr && !has_fr {
        expanded.push(tunnel.clone());
        assert(views(expanded@) =~= seq![tunnel@]);
        return Ok(expanded);
    }
    if has_lr != has_fr {
        return Err(
            ConfigError::RangeOneSided(tunnel.listen.clone(), tunnel.forward.clone()),
        );
    }
    let (l_start, l_end): (u16, u16) = match parse_port_range(listen_port) {
        Ok(range) => range,
        Err(e) => return Err(e),
    };
    let (f_start, f_end): (u16, u16) = match parse_port_range(forward_port) {
        Ok(range) => range,
        Err(e) => return Err(e),
    };
    let l_count: u16 = l_end - l_start + 1;
    let f_count: u16 = f_end - f_start + 1;
    if l_count != f_count {
        return Err(ConfigError::RangeCountMismatch(l_count, f_count));
    }
    let ghost whole = Seq::new(
        l_count as nat,
        |i: int|
            mapped_tunnel(
                tunnel@,
                listen_base@,
                l_start as int,
                forward_base@,
                f_start as int,
                i,
            ),
    );
    let mut i: u16 = 0;
    assert(views(expanded@) =~= whole.take(0));
    while i < l_count
        invariant
            i <= l_count,
            l_count == f_count,
            l_start + l_count <= 0x1_0000,
            f_start + f_count <= 0x1_0000,
            whole == Seq::new(
                l_count as nat,
                |i: int|
                    mapped_tunnel(
                        tunnel@,
                        listen_base@,
                        l_start as int,
                        forward_base@,
                        f_start as int,
                        i,
                    ),
            ),
            views(expanded@) == whole.take(i as int),
        decreases l_count - i,
    {
        let mapped = Tunnel {
            listen: join_port(listen_base, l_start + i),
            forward: join_port(forward_base, f_start + i),
            protocol: tunnel.protocol,
            enable: tunnel.enable,
        };
        assert(mapped@ == whole[i as int]);
        let ghost before = expanded@;
        expanded.push(mapped);
        assert(views(expanded@) =~= views(before).push(mapped@));
        assert(whole.take(i + 1) =~= whole.take(i as int).push(whole[i as int]));
        i = i + 1;
    }
    assert(whole.take(l_count as int) =~= whole);
    Ok(expanded)
}

/// Replaces each tunnel that maps ranges of ports by one tunnel per port. Where a tunnel is
/// refused, the configuration stays as it is.
pub fn expand_port_ranges(config: &mut TunnelConfig) -> (done: Result<(), ConfigError>)
    requires
        expandable(old(config)@),
    ensures
        match done {
            Ok(_) => expand_all(old(config)@) == Ok::<_, ConfigFault>(final(config)@),
            Err(e) => {
                &&& expand_all(old(config)@) == Err::<Seq<TunnelView>, _>(e@)
                &&& *final(config) == *old(config)
            },
        },
{
    let ghost all = config@;
    let mut expanded: Vec<Tunnel> = Vec::new();
    let n: usize = config.tunnel.len();
    let mut i: usize = 0;
    assert(views(expanded@) =~= Seq::<TunnelView>::empty());
    while i < n
        invariant
            i <= n,
            n == config.tunnel@.len(),
            *config == *old(config),
            all == config@,
            expandable(all),
            expand_all(all.take(i as int)) == Ok::<_, ConfigFault>(views(expanded@)),
        decreases n - i,
    {
        assert(all[i as int] == config.tunnel@[i as int]@);
        assert(!too_wide(all[i as int]));
        assert(all.take(i + 1).drop_last() =~= all.take(i as int));
        assert(all.take(i + 1).last() == all[i as int]);
        match expand_tunnel(&config.tunnel[i]) {
            Ok(more) => {
                let mut more = more;
                let ghost before = expanded@;
                let ghost added = more@;
                expanded.append(&mut more);
                assert(views(expanded@) =~= views(before) + views(added));
            },
            Err(e) => {
                proof {
                    lemma_fault_stays(all, i + 1);
                }
                return Err(e);
            },
        }
        i = i + 1;
    }
    assert(all.take(n as int) =~= all);
    config.tunnel = expanded;
    Ok(())
}

/// A fault among the first tunnels is the fault of all of them.
proof fn lemma_fault_stays(ts: Seq<TunnelView>, i: int)
    requires
        0 <= i <= ts.len(),
        expand_all(ts.take(i)) is Err,
    ensures
        expand_all(ts) == expand_all(ts.take(i)),
    decreases ts.len() - i,
{
    if i == ts.len() {
        assert(ts.take(i) =~= ts);
    } else {
        assert(ts.take(i + 1).drop_last() =~= ts.take(i));
        lemma_fault_stays(ts, i + 1);
    }
}

/// Whether the ports of a tunnel are too many to count.
fn is_too_wide(tunnel: &Tunnel) -> (yes: bool)
    ensures
        yes == too_wide(tunnel@),
{
    let (_, listen_port) = match split_addr_port(tunnel.listen.as_str()) {
        Ok(parts) => parts,
        Err(_) => return false,
    };
    let (_, forward_port) = match split_addr_port(tunnel.forward.as_str()) {
        Ok(parts) => parts,
        Err(_) => return false,
    };
    if !has_range(listen_port) || !has_range(forward_port) {
        return false;
    }
    let l: (u16, u16) = match parse_port_range(listen_port) {
        Ok(range) => range,
        Err(_) => return false,
    };
    let f: (u16, u16) = match parse_port_range(forward_port) {
        Ok(range) => range,
        Err(_) => return false,
    };
    l.1 - l.0 == 0xffff || f.1 - f.0 == 0xffff
}

/// A tunnel with white space cut off its addresses.
pub open spec fn trimmed_tunnel(t: TunnelView) -> TunnelView {
    TunnelView { listen: text::trimmed(t.listen), forward: text::trimmed(t.forward), ..t }
}

/// Some tunnels with white space cut off their addresses.
pub open spec fn trimmed_all(ts: Seq<TunnelView>) -> Seq<TunnelView> {
    ts.map_values(|t: TunnelView| trimmed_tunnel(t))
}

/// The tunnels that are enabled.
pub open spec fn enabled_of(ts: Seq<TunnelView>) -> Seq<TunnelView> {
    ts.filter(|t: TunnelView| t.enable)
}

/// What to write for a new configuration.
pub open spec fn template_for(path: Seq<char>, present: bool, force: bool) -> Result<
    Seq<char>,
    ConfigFault,
> {
    if present && !force {
        Err(ConfigFault::TemplateExists(path))
    } else {
        Ok(TEMPLATE@)
    }
}

impl TunnelConfig {
    /// Whether every range of ports that an expansion comes to can be counted.
    pub fn can_expand(&self) -> (yes: bool)
        ensures
            yes == expandable(self@),
    {
        let ghost all = self@;
        let n: usize = self.tunnel.len();
        let mut i: usize = 0;
        assert(all.take(0) =~= Seq::<TunnelView>::empty());
        while i < n
            invariant
                i <= n,
                n == self.tunnel@.len(),
                all == self@,
                expand_all(all.take(i as int)) is Ok,
                forall|j: int| 0 <= j < i ==> !too_wide(all[j]),
            decreases n - i,
        {
            assert(all[i as int] == self.tunnel@[i as int]@);
            if is_too_wide(&self.tunnel[i]) {
                assert(!expandable(all)) by {
                    assert(expand_all(all.take(i as int)) is Ok);
                }
                return false;
            }
            assert(all.take(i + 1).drop_last() =~= all.take(i as int));
            assert(all.take(i + 1).last() == all[i as int]);
            if expand_tunnel(&self.tunnel[i]).is_err() {
                assert forall|j: int|
                    0 <= j < all.len() && expand_all(#[trigger] all.take(j)) is Ok implies !too_wide(
                    all[j],
                ) by {
                    if j > i {
                        assert(all.take(j).take(i + 1) =~= all.take(i + 1));
                        lemma_fault_stays(all.take(j), i + 1);
                    }
                }
                return true;
            }
            i = i + 1;
        }
        true
    }

    /// The configuration with white space cut off every address.
    pub fn trim_addresses(&self) -> (cut: TunnelConfig)
        ensures
            cut@ == trimmed_all(self@),
    {
        let n: usize = self.tunnel.len();
        let mut cut: Vec<Tunnel> = Vec::new();
        let mut i: usize = 0;
        while i < n
            invariant
                i <= n,
                n == self.tunnel@.len(),
                views(cut@) == trimmed_all(self@).take(i as int),
            decreases n - i,
        {
            let t = &self.tunnel[i];
            let ghost before = cut@;
            let next = Tunnel {
                protocol: t.protocol,
                listen: text::trim(t.listen.as_str()).to_owned(),
                forward: text::trim(t.forward.as_str()).to_owned(),
                enable: t.enable,
            };
            assert(next@ == trimmed_all(self@)[i as int]);
            cut.push(next);
            assert(views(cut@) =~= views(before).push(next@));
            assert(trimmed_all(self@).take(i + 1) =~= trimmed_all(self@).take(i as int).push(
                trimmed_all(self@)[i as int],
            ));
            i = i + 1;
        }
        assert(trimmed_all(self@).take(n as int) =~= trimmed_all(self@));
        TunnelConfig { tunnel: cut }
    }

    /// Whether `load` can count every range of ports that it comes to.
    pub fn can_load(&self) -> (yes: bool)
        ensures
            yes == expandable(trimmed_all(self@)),
    {
        self.trim_addresses().can_expand()
    }

    /// Settles a configuration as it was read from a file: cuts white space off the addresses
    /// and replaces ranges of ports by single ports.
    pub fn load(parsed: TunnelConfig) -> (loaded: Result<TunnelConfig, ConfigError>)
        requires
            expandable(trimmed_all(parsed@)),
        ensures
            match loaded {
                Ok(config) => expand_all(trimmed_all(parsed@)) == Ok::<_, ConfigFault>(config@),
                Err(e) => expand_all(trimmed_all(parsed@)) == Err::<Seq<TunnelView>, _>(e@),
            },
    {
        let mut config = parsed.trim_addresses();
        match expand_port_ranges(&mut config) {
            Ok(_) => Ok(config),
            Err(e) => Err(e),
        }
    }

    /// What to write to `path` for a new configuration. A file that is already there is kept,
    /// unless overwriting it is forced.
    pub fn create_template(path: &str, present: bool, force: bool) -> (template: Result<
        &'static str,
        ConfigError,
    >)
        ensures
            match template {
                Ok(t) => (!present || force) && t@ == TEMPLATE@,
                Err(e) => present && !force && e@ == ConfigFault::TemplateExists(path@),
            },
            match template {
                Ok(t) => template_for(path@, present, force) == Ok::<_, ConfigFault>(t@),
                Err(e) => template_for(path@, present, force) == Err::<Seq<char>, _>(e@),
            },
    {
        if present && !force {
            return Err(ConfigError::TemplateExists(path.to_owned()));
        }
        Ok(TEMPLATE)
    }

    /// The tunnels to run.
    pub fn enabled(&self) -> (tunnels: Vec<Tunnel>)
        ensures
            views(tunnels@) == self@.filter(|t: TunnelView| t.enable),
            views(tunnels@) == enabled_of(self@),
    {
        let ghost all = self@;
        let ghost on = |t: TunnelView| t.enable;
        let n: usize = self.tunnel.len();
        let mut tunnels: Vec<Tunnel> = Vec::new();
        let mut i: usize = 0;
        proof {
            reveal(Seq::filter);
            assert(all.take(0) =~= Seq::<TunnelView>::empty());
            assert(views(tunnels@) =~= all.take(0).filter(on));
        }
        while i < n
            invariant
                i <= n,
                n == self.tunnel@.len(),
                all == self@,
                on == (|t: TunnelView| t.enable),
                views(tunnels@) == all.take(i as int).filter(on),
            decreases n - i,
        {
            let ghost before = tunnels@;
            proof {
                reveal(Seq::filter);
                assert(all.take(i + 1).drop_last() =~= all.take(i as int));
                assert(all[i as int] == self.tunnel@[i as int]@);
            }
            if self.tunnel[i].enable {
                let t = self.tunnel[i].clone();
                tunnels.push(t);
                assert(views(tunnels@) =~= views(before).push(t@));
            }
            i = i + 1;
        }
        assert(all.take(n as int) =~= all);
        tunnels
    }
}

/// A host that an address was split into, joined to a port again, splits into the same host and
/// that port.
pub proof fn law_joined_address_splits(s: Seq<char>, port: nat)
    requires
        address_parts(s) is Ok,
    ensures
        address_parts(with_port(address_parts(s)->Ok_0.0, port as int)) == Ok::<_, ConfigFault>(
            (address_parts(s)->Ok_0.0, text::decimal(port)),
        ),
{
    let host = address_parts(s)->Ok_0.0;
    let digits = text::decimal(port);
    let joined = with_port(host, port as int);
    reveal_strlit(":");
    text::lemma_decimal_digits(port);
    assert(joined =~= host + seq![':'] + digits);
    assert forall|j: int| host.len() < j < joined.len() implies joined[j] != ':' && joined[j]
        != ']' by {
        assert(joined[j] == digits[j - host.len() - 1]);
    }
    if s.len() > 0 && s[0] == '[' {
        let pat = seq![']', ':'];
        let i = text::last_of(s, pat)->0;
        text::lemma_last_of(s, pat);
        assert(s.subrange(i, i + 2)[0] == ']');
        assert(host[i] == ']');
        assert(joined.subrange(i, i + 2) =~= pat);
        assert forall|j: int| i < j && j + pat.len() <= joined.len() implies #[trigger] joined.subrange(
            j,
            j + pat.len(),
        ) != pat by {
            assert(joined.subrange(j, j + pat.len())[0] == joined[j]);
            assert(pat[0] == ']');
        }
        text::lemma_last_of_at(joined, pat, i);
        assert(joined[0] == '[');
        assert(joined.take(i + 1) =~= host);
        assert(joined.skip(i + 2) =~= digits);
    } else {
        let pat = seq![':'];
        let i = text::last_of(s, pat)->0;
        text::lemma_last_of(s, pat);
        assert(joined.subrange(i, i + 1) =~= pat);
        assert forall|j: int| i < j && j + pat.len() <= joined.len() implies #[trigger] joined.subrange(
            j,
            j + pat.len(),
        ) != pat by {
            assert(joined.subrange(j, j + pat.len())[0] == joined[j]);
            assert(pat[0] == ':');
        }
        text::lemma_last_of_at(joined, pat, i);
        assert(joined[0] != '[');
        assert(joined.take(i) =~= host);
        assert(joined.skip(i + 1) =~= digits);
    }
}

/// Every tunnel that one tunnel stands for keeps its protocol and whether it is enabled, and
/// maps single ports: it stands for itself.
pub proof fn law_expanded_tunnel_is_single(t: TunnelView, k: int)
    requires
        expand_one(t) is Ok,
        0 <= k < expand_one(t)->Ok_0.len(),
    ensures
        expand_one(t)->Ok_0[k].protocol == t.protocol,
        expand_one(t)->Ok_0[k].enable == t.enable,
        expand_one(expand_one(t)->Ok_0[k]) == Ok::<_, ConfigFault>(seq![expand_one(t)->Ok_0[k]]),
{
    let (listen_host, listen_port) = address_parts(t.listen)->Ok_0;
    let (forward_host, forward_port) = address_parts(t.forward)->Ok_0;
    if listen_port.contains('-') {
        let l = port_range(listen_port)->Ok_0;
        let f = port_range(forward_port)->Ok_0;
        law_joined_address_splits(t.listen, (l.0 + k) as nat);
        law_joined_address_splits(t.forward, (f.0 + k) as nat);
        text::lemma_decimal_digits((l.0 + k) as nat);
        text::lemma_decimal_digits((f.0 + k) as nat);
        assert(!text::decimal((l.0 + k) as nat).contains('-'));
        assert(!text::decimal((f.0 + k) as nat).contains('-'));
    }
}

/// Two of the tunnels that a range stands for never listen on the same address.
pub proof fn law_range_listens_once_per_port(t: TunnelView, i: int, j: int)
    requires
        expand_one(t) is Ok,
        0 <= i < j < expand_one(t)->Ok_0.len(),
    ensures
        expand_one(t)->Ok_0[i].listen != expand_one(t)->Ok_0[j].listen,
{
    let (listen_host, listen_port) = address_parts(t.listen)->Ok_0;
    let l = port_range(listen_port)->Ok_0;
    law_joined_address_splits(t.listen, (l.0 + i) as nat);
    law_joined_address_splits(t.listen, (l.0 + j) as nat);
    text::law_port_reads_back((l.0 + i) as u16);
    text::law_port_reads_back((l.0 + j) as u16);
}

proof fn lemma_singles_expand_to_themselves(us: Seq<TunnelView>)
    requires
        forall|k: int|
            0 <= k < us.len() ==> expand_one(#[trigger] us[k]) == Ok::<_, ConfigFault>(
                seq![us[k]],
            ),
    ensures
        expand_all(us) == Ok::<_, ConfigFault>(us),
    decreases us.len(),
{
    if us.len() > 0 {
        let before = us.drop_last();
        assert forall|k: int| 0 <= k < before.len() implies expand_one(#[trigger] before[k]) == Ok::<
            _,
            ConfigFault,
        >(seq![before[k]]) by {
            assert(before[k] == us[k]);
        }
        lemma_singles_expand_to_themselves(before);
        assert(expand_one(us[us.len() - 1]) is Ok);
        assert(before + seq![us.last()] =~= us);
    } else {
        assert(us =~= Seq::<TunnelView>::empty());
    }
}

proof fn lemma_all_expanded_are_single(ts: Seq<TunnelView>)
    requires
        expand_all(ts) is Ok,
    ensures
        forall|k: int|
            0 <= k < expand_all(ts)->Ok_0.len() ==> expand_one(
                #[trigger] expand_all(ts)->Ok_0[k],
            ) == Ok::<_, ConfigFault>(seq![expand_all(ts)->Ok_0[k]]),
    decreases ts.len(),
{
    if ts.len() > 0 {
        lemma_all_expanded_are_single(ts.drop_last());
        let before = expand_all(ts.drop_last())->Ok_0;
        let more = expand_one(ts.last())->Ok_0;
        let us = expand_all(ts)->Ok_0;
        assert forall|k: int| 0 <= k < us.len() implies expand_one(#[trigger] us[k]) == Ok::<
            _,
            ConfigFault,
        >(seq![us[k]]) by {
            if k < before.len() {
                assert(us[k] == before[k]);
            } else {
                law_expanded_tunnel_is_single(ts.last(), k - before.len());
                assert(us[k] == more[k - before.len()]);
            }
        }
    }
}

/// An expanded configuration has no range of ports left: expanding it again changes nothing.
pub proof fn law_expansion_settles(ts: Seq<TunnelView>)
    requires
        expand_all(ts) is Ok,
    ensures
        expand_all(expand_all(ts)->Ok_0) == expand_all(ts),
{
    lemma_all_expanded_are_single(ts);
    lemma_singles_expand_to_themselves(expand_all(ts)->Ok_0);
}

/// Whether a tunnel maps one port to one port.
pub open spec fn maps_single_ports(t: TunnelView) -> bool {
    match (address_parts(t.listen), address_parts(t.forward)) {
        (Ok((_, listen_port)), Ok((_, forward_port))) => !listen_port.contains('-')
            && !forward_port.contains('-'),
        _ => false,
    }
}

/// A configuration without ranges of ports stays as it is.
pub proof fn law_single_ports_stay(ts: Seq<TunnelView>)
    requires
        forall|k: int| 0 <= k < ts.len() ==> maps_single_ports(#[trigger] ts[k]),
    ensures
        expand_all(ts) == Ok::<_, ConfigFault>(ts),
{
    assert forall|k: int| 0 <= k < ts.len() implies expand_one(#[trigger] ts[k]) == Ok::<
        _,
        ConfigFault,
    >(seq![ts[k]]) by {
        assert(maps_single_ports(ts[k]));
    }
    lemma_singles_expand_to_themselves(ts);
}

proof fn lemma_joined_address_is_trimmed(s: Seq<char>, port: nat)
    requires
        text::trimmed(s) == s,
        address_parts(s) is Ok,
    ensures
        text::trimmed(with_port(address_parts(s)->Ok_0.0, port as int)) == with_port(
            address_parts(s)->Ok_0.0,
            port as int,
        ),
{
    let host = address_parts(s)->Ok_0.0;
    let joined = with_port(host, port as int);
    reveal_strlit(":");
    text::law_trim_settles(s);
    text::lemma_decimal_digits(port);
    text::lemma_last_of(s, seq![']', ':']);
    text::lemma_last_of(s, seq![':']);
    assert(joined.last() == text::decimal(port).last());
    assert('0' <= text::decimal(port)[text::decimal(port).len() - 1] <= '9');
    if host.len() > 0 {
        assert(joined[0] == s[0]);
    } else {
        assert(joined[0] == ':');
    }
    text::lemma_trimmed_already(joined);
}

proof fn lemma_expanded_stay_trimmed(ts: Seq<TunnelView>)
    requires
        expand_all(ts) is Ok,
        forall|k: int| 0 <= k < ts.len() ==> trimmed_tunnel(#[trigger] ts[k]) == ts[k],
    ensures
        forall|k: int|
            0 <= k < expand_all(ts)->Ok_0.len() ==> trimmed_tunnel(
                #[trigger] expand_all(ts)->Ok_0[k],
            ) == expand_all(ts)->Ok_0[k],
    decreases ts.len(),
{
    if ts.len() > 0 {
        assert forall|k: int| 0 <= k < ts.drop_last().len() implies trimmed_tunnel(
            #[trigger] ts.drop_last()[k],
        ) == ts.drop_last()[k] by {
            assert(ts.drop_last()[k] == ts[k]);
        }
        lemma_expanded_stay_trimmed(ts.drop_last());
        let t = ts.last();
        assert(trimmed_tunnel(ts[ts.len() - 1]) == t);
        let before = expand_all(ts.drop_last())->Ok_0;
        let more = expand_one(t)->Ok_0;
        let us = expand_all(ts)->Ok_0;
        assert forall|k: int| 0 <= k < us.len() implies trimmed_tunnel(#[trigger] us[k])
            == us[k] by {
            if k < before.len() {
                assert(us[k] == before[k]);
            } else {
                let m = k - before.len();
                assert(us[k] == more[m]);
                let listen_port = address_parts(t.listen)->Ok_0.1;
                let forward_port = address_parts(t.forward)->Ok_0.1;
                if listen_port.contains('-') {
                    let l = port_range(listen_port)->Ok_0;
                    let f = port_range(forward_port)->Ok_0;
                    lemma_joined_address_is_trimmed(t.listen, (l.0 + m) as nat);
                    lemma_joined_address_is_trimmed(t.forward, (f.0 + m) as nat);
                }
            }
        }
    }
}

/// A loaded configuration is settled: loading it again gives the same.
pub proof fn law_loading_settles(ts: Seq<TunnelView>)
    requires
        expand_all(trimmed_all(ts)) is Ok,
    ensures
        expand_all(trimmed_all(expand_all(trimmed_all(ts))->Ok_0)) == expand_all(trimmed_all(ts)),
{
    let cut = trimmed_all(ts);
    assert forall|k: int| 0 <= k < cut.len() implies trimmed_tunnel(#[trigger] cut[k])
        == cut[k] by {
        text::law_trim_settles(ts[k].listen);
        text::law_trim_settles(ts[k].forward);
    }
    lemma_expanded_stay_trimmed(cut);
    assert(trimmed_all(expand_all(cut)->Ok_0) =~= expand_all(cut)->Ok_0);
    law_expansion_settles(cut);
}

/// A host and a port with a colon between them split into the two, as long as the host is not
/// taken for an IPv6 address and the port holds no colon; a host in brackets may hold colons. What
/// has no such colon is refused.
pub proof fn law_address_splits(host: Seq<char>, port: Seq<char>)
    ensures
        (host.len() == 0 || host[0] != '[') && !port.contains(':') ==> address_parts(
            host + seq![':'] + port,
        ) == Ok::<_, ConfigFault>((host, port)),
        host.len() > 0 && host[0] == '[' && host.last() == ']' && !port.contains(']')
            ==> address_parts(host + seq![':'] + port) == Ok::<_, ConfigFault>((host, port)),
        (port.len() == 0 || port[0] != '[') && !port.contains(':') ==> address_parts(port) == Err::<
            (Seq<char>, Seq<char>),
            _,
        >(ConfigFault::MissingPort(port)),
        port.len() > 0 && port[0] == '[' && !port.contains(']') ==> address_parts(port) == Err::<
            (Seq<char>, Seq<char>),
            _,
        >(ConfigFault::InvalidIpv6(port)),
{
    let s = host + seq![':'] + port;
    let n = host.len() as int;
    let colon = seq![':'];
    let pair = seq![']', ':'];
    if host.len() > 0 {
        assert(s[0] == host[0]);
    } else {
        assert(s[0] == ':');
    }
    assert(s.take(n) =~= host);
    assert(s.skip(n + 1) =~= port);
    if !port.contains(':') {
        assert(s.subrange(n, n + 1) =~= colon);
        assert forall|j: int| n < j && j + colon.len() <= s.len() implies #[trigger] s.subrange(
            j,
            j + colon.len(),
        ) != colon by {
            assert(s.subrange(j, j + colon.len())[0] == port[j - n - 1]);
            assert(colon[0] == ':');
        }
        text::lemma_last_of_at(s, colon, n);
        text::lemma_last_of(port, colon);
        if let Some(k) = text::last_of(port, colon) {
            assert(port.subrange(k, k + 1)[0] == port[k]);
            assert(colon[0] == ':');
        }
    }
    if !port.contains(']') {
        if host.len() > 0 && host.last() == ']' {
            assert(s[n - 1] == ']');
            assert(s.subrange(n - 1, n + 1) =~= pair);
            assert forall|j: int| n - 1 < j && j + pair.len() <= s.len() implies #[trigger] s.subrange(
                j,
                j + pair.len(),
            ) != pair by {
                assert(s.subrange(j, j + pair.len())[0] == s[j]);
                assert(pair[0] == ']');
                if j > n {
                    assert(s[j] == port[j - n - 1]);
                }
            }
            text::lemma_last_of_at(s, pair, n - 1);
        }
        text::lemma_last_of(port, pair);
        if let Some(k) = text::last_of(port, pair) {
            assert(port.subrange(k, k + 2)[0] == port[k]);
            assert(pair[0] == ']');
        }
    }
}

/// The two parts of an address, with a colon between them, are the address; a host that starts
/// with a bracket ends with one; and there is no later place where it could have been split.
pub proof fn law_split_address_joins(s: Seq<char>)
    requires
        address_parts(s) is Ok,
    ensures
        ({
            let (host, port) = address_parts(s)->Ok_0;
            &&& s == host + seq![':'] + port
            &&& s[0] == '[' ==> host.len() > 0 && host[0] == '[' && host.last() == ']' && forall|
                j: int,
            |
                0 <= j && j + 2 <= port.len() ==> #[trigger] port.subrange(j, j + 2) != seq![
                    ']',
                    ':',
                ]
            &&& s[0] != '[' ==> !port.contains(':')
        }),
{
    let (host, port) = address_parts(s)->Ok_0;
    if s.len() > 0 && s[0] == '[' {
        let pat = seq![']', ':'];
        text::lemma_last_of(s, pat);
        let i = text::last_of(s, pat)->0;
        assert(s.subrange(i, i + 2)[0] == ']');
        assert(s.subrange(i, i + 2)[1] == ':');
        assert(s =~= host + seq![':'] + port);
        assert forall|j: int| 0 <= j && j + 2 <= port.len() implies #[trigger] port.subrange(
            j,
            j + 2,
        ) != pat by {
            assert(port.subrange(j, j + 2) =~= s.subrange(i + 2 + j, i + 2 + j + pat.len()));
        }
    } else {
        let pat = seq![':'];
        text::lemma_last_of(s, pat);
        let i = text::last_of(s, pat)->0;
        assert(s.subrange(i, i + 1)[0] == ':');
        assert(s =~= host + seq![':'] + port);
        if port.contains(':') {
            let k = port.index_of(':');
            assert(s.subrange(i + 1 + k, i + 1 + k + pat.len()) =~= pat);
        }
    }
}

/// Two ports with a `-` between them are a range from the first to the second. Each must be a
/// port, of which the first that is not is the fault, and the first must not be above the second.
pub proof fn law_range_reads_its_ends(from: Seq<char>, to: Seq<char>)
    requires
        !from.contains('-'),
    ensures
        ({
            let s = from + seq!['-'] + to;
            match (text::port_value(from), text::port_value(to)) {
                (None, _) => port_range(s) == Err::<(u16, u16), _>(
                    ConfigFault::InvalidPort(text::port_error(from)),
                ),
                (_, None) => port_range(s) == Err::<(u16, u16), _>(
                    ConfigFault::InvalidPort(text::port_error(to)),
                ),
                (Some(a), Some(b)) => if a <= b {
                    port_range(s) == Ok::<_, ConfigFault>((a, b))
                } else {
                    port_range(s) == Err::<(u16, u16), _>(ConfigFault::RangeReversed(s))
                },
            }
        }),
        port_range(from) is Ok <==> text::port_value(from) is Some,
        text::port_value(from) matches Some(port) ==> port_range(from) == Ok::<_, ConfigFault>(
            (port, port),
        ),
        text::port_value(from) is None ==> port_range(from) == Err::<(u16, u16), _>(
            ConfigFault::InvalidPort(text::port_error(from)),
        ),
{
    let s = from + seq!['-'] + to;
    let n = from.len() as int;
    assert forall|j: int| 0 <= j < n implies s[j] != '-' by {
        assert(s[j] == from[j]);
    }
    assert(s[n] == '-');
    text::lemma_first_of_at(s, '-', n);
    assert(s.take(n) =~= from);
    assert(s.skip(n + 1) =~= to);
    text::lemma_first_of(from, '-');
}

/// A range that is written out reads back.
pub proof fn law_written_range_reads_back(from: u16, to: u16)
    requires
        from <= to,
    ensures
        port_range(text::decimal(from as nat) + seq!['-'] + text::decimal(to as nat)) == Ok::<
            _,
            ConfigFault,
        >((from, to)),
        port_range(text::decimal(from as nat)) == Ok::<_, ConfigFault>((from, from)),
{
    text::law_port_reads_back(from);
    text::law_port_reads_back(to);
    text::lemma_decimal_digits(from as nat);
    assert(!text::decimal(from as nat).contains('-'));
    law_range_reads_its_ends(text::decimal(from as nat), text::decimal(to as nat));
}

/// A range is mapped port to port: there are as many tunnels as ports on either side, and the
/// `k`-th one listens on the `k`-th port of the one range and forwards to the `k`-th port of the
/// other, on the same hosts.
pub proof fn law_range_maps_port_to_port(t: TunnelView, k: int)
    requires
        expand_one(t) is Ok,
        address_parts(t.listen)->Ok_0.1.contains('-'),
        0 <= k < expand_one(t)->Ok_0.len(),
    ensures
        ({
            let mapped = expand_one(t)->Ok_0;
            let (listen_host, listen_port) = address_parts(t.listen)->Ok_0;
            let (forward_host, forward_port) = address_parts(t.forward)->Ok_0;
            let (l_from, l_to) = port_range(listen_port)->Ok_0;
            let (f_from, f_to) = port_range(forward_port)->Ok_0;
            &&& address_parts(t.listen) is Ok && address_parts(t.forward) is Ok
            &&& port_range(listen_port) is Ok && port_range(forward_port) is Ok
            &&& mapped.len() == l_to - l_from + 1 == f_to - f_from + 1
            &&& address_parts(mapped[k].listen) is Ok && address_parts(mapped[k].forward) is Ok
            &&& address_parts(mapped[k].listen)->Ok_0.0 == listen_host
            &&& address_parts(mapped[k].forward)->Ok_0.0 == forward_host
            &&& text::port_value(address_parts(mapped[k].listen)->Ok_0.1) == Some(
                (l_from + k) as u16,
            )
            &&& text::port_value(address_parts(mapped[k].forward)->Ok_0.1) == Some(
                (f_from + k) as u16,
            )
            &&& l_from + k <= l_to && f_from + k <= f_to
            &&& mapped[k].protocol == t.protocol
            &&& mapped[k].enable == t.enable
        }),
{
    let (_, listen_port) = address_parts(t.listen)->Ok_0;
    let (_, forward_port) = address_parts(t.forward)->Ok_0;
    let l = port_range(listen_port)->Ok_0;
    let f = port_range(forward_port)->Ok_0;
    law_joined_address_splits(t.listen, (l.0 + k) as nat);
    law_joined_address_splits(t.forward, (f.0 + k) as nat);
    text::law_port_reads_back((l.0 + k) as u16);
    text::law_port_reads_back((f.0 + k) as u16);
}

/// Two of the tunnels that a range stands for never forward to the same address.
pub proof fn law_range_forwards_once_per_port(t: TunnelView, i: int, j: int)
    requires
        expand_one(t) is Ok,
        0 <= i < j < expand_one(t)->Ok_0.len(),
    ensures
        expand_one(t)->Ok_0[i].forward != expand_one(t)->Ok_0[j].forward,
{
    law_range_maps_port_to_port(t, i);
    law_range_maps_port_to_port(t, j);
}

/// A tunnel is refused exactly where an address has no port, where only one side is a range, or
/// where the two ranges cannot be read or differ in length. Where it is not a range, it stays.
pub proof fn law_what_can_be_expanded(t: TunnelView)
    ensures
        ({
            let parts = address_parts(t.listen) is Ok && address_parts(t.forward) is Ok;
            let l = address_parts(t.listen)->Ok_0.1;
            let f = address_parts(t.forward)->Ok_0.1;
            let single = !l.contains('-') && !f.contains('-');
            let even = l.contains('-') && f.contains('-') && port_range(l) is Ok && port_range(f)
                is Ok && port_range(l)->Ok_0.1 - port_range(l)->Ok_0.0 == port_range(f)->Ok_0.1
                - port_range(f)->Ok_0.0;
            &&& expand_one(t) is Ok <==> parts && (single || even)
            &&& parts && single ==> expand_one(t) == Ok::<_, ConfigFault>(seq![t])
            &&& parts && l.contains('-') != f.contains('-') ==> expand_one(t) == Err::<
                Seq<TunnelView>,
                _,
            >(ConfigFault::RangeOneSided(t.listen, t.forward))
            &&& address_parts(t.listen) matches Err(fault) ==> expand_one(t) == Err::<
                Seq<TunnelView>,
                _,
            >(fault)
        }),
{
}

/// Tunnels are expanded one by one and in order: what some tunnels and then others stand for is
/// what the first ones stand for and then what the others do, and the first fault is reported.
pub proof fn law_expansion_goes_tunnel_by_tunnel(
    first: Seq<TunnelView>,
    second: Seq<TunnelView>,
    t: TunnelView,
)
    ensures
        match (expand_all(first), expand_all(second)) {
            (Err(fault), _) => expand_all(first + second) == Err::<Seq<TunnelView>, _>(fault),
            (_, Err(fault)) => expand_all(first + second) == Err::<Seq<TunnelView>, _>(fault),
            (Ok(a), Ok(b)) => expand_all(first + second) == Ok::<_, ConfigFault>(a + b),
        },
        expand_all(seq![t]) == expand_one(t),
        expand_all(Seq::empty()) == Ok::<_, ConfigFault>(Seq::<TunnelView>::empty()),
    decreases second.len(),
{
    let none = Seq::<TunnelView>::empty();
    assert(seq![t].drop_last() =~= none);
    assert(expand_all(none) == Ok::<_, ConfigFault>(none));
    assert(seq![t].last() == t);
    if let Ok(more) = expand_one(t) {
        assert(none + more =~= more);
    }
    if second.len() == 0 {
        assert(first + second =~= first);
        if let Ok(a) = expand_all(first) {
            assert(a + none =~= a);
        }
    } else {
        let both = first + second;
        law_expansion_goes_tunnel_by_tunnel(first, second.drop_last(), t);
        assert(both.drop_last() =~= first + second.drop_last());
        assert(both.last() == second.last());
        if let (Ok(a), Ok(b)) = (expand_all(first), expand_all(second.drop_last())) {
            if let Ok(more) = expand_one(second.last()) {
                assert((a + b) + more =~= a + (b + more));
            }
        }
    }
}

/// A tunnel is too wide only where it is a range over all 65,536 ports on one side.
pub proof fn law_only_all_ports_are_too_many(t: TunnelView)
    requires
        too_wide(t),
    ensures
        port_range(address_parts(t.listen)->Ok_0.1) == Ok::<_, ConfigFault>((0u16, 65_535u16))
            || port_range(address_parts(t.forward)->Ok_0.1) == Ok::<_, ConfigFault>(
            (0u16, 65_535u16),
        ),
{
}

/// Trimming changes nothing of a tunnel but the white space at the ends of its addresses.
pub proof fn law_trimming_keeps_the_tunnel(ts: Seq<TunnelView>, i: int)
    requires
        0 <= i < ts.len(),
    ensures
        trimmed_all(ts).len() == ts.len(),
        trimmed_all(ts)[i].protocol == ts[i].protocol,
        trimmed_all(ts)[i].enable == ts[i].enable,
        trimmed_all(ts)[i].listen == text::trimmed(ts[i].listen),
        trimmed_all(ts)[i].forward == text::trimmed(ts[i].forward),
{
}

/// What is said of a fault names what is at fault, whatever that is: around it stands the same
/// text each time.
pub proof fn law_fault_names_its_cause(a: Seq<char>, b: Seq<char>, m: nat, n: nat)
    ensures
        fault_text(ConfigFault::InvalidIpv6(a)) == fault_text(ConfigFault::InvalidIpv6(""@)) + a,
        fault_text(ConfigFault::MissingPort(a)) == fault_text(ConfigFault::MissingPort(""@)) + a,
        fault_text(ConfigFault::InvalidPort(a)) == a,
        fault_text(ConfigFault::RangeReversed(a)) == fault_text(ConfigFault::RangeReversed(""@))
            + a,
        fault_text(ConfigFault::RangeOneSided(a, b)) == fault_text(
            ConfigFault::RangeOneSided(a, ""@),
        ) + b,
        ({
            let bare = fault_text(ConfigFault::RangeOneSided(""@, ""@));
            fault_text(ConfigFault::RangeOneSided(a, ""@)) == bare.take(bare.len() - 4) + a
                + " -> "@
        }),
        fault_text(ConfigFault::TemplateExists(a)) == a + fault_text(
            ConfigFault::TemplateExists(""@),
        ),
        fault_text(ConfigFault::RangeCountMismatch(m as int, n as int))
            == "Port range count mismatch: "@ + text::decimal(m) + " ports in listen, "@
            + text::decimal(n) + " in forward"@,
{
    reveal_strlit("");
    assert(fault_text(ConfigFault::InvalidIpv6(a)) =~= fault_text(ConfigFault::InvalidIpv6(""@))
        + a);
    assert(fault_text(ConfigFault::MissingPort(a)) =~= fault_text(ConfigFault::MissingPort(""@))
        + a);
    assert(fault_text(ConfigFault::RangeReversed(a)) =~= fault_text(ConfigFault::RangeReversed(""@))
        + a);
    assert(fault_text(ConfigFault::RangeOneSided(a, b)) =~= fault_text(
        ConfigFault::RangeOneSided(a, ""@),
    ) + b);
    reveal_strlit(" -> ");
    let bare = fault_text(ConfigFault::RangeOneSided(""@, ""@));
    assert(fault_text(ConfigFault::RangeOneSided(a, ""@)) =~= bare.take(bare.len() - 4) + a
        + " -> "@);
    assert(fault_text(ConfigFault::TemplateExists(a)) =~= a + fault_text(
        ConfigFault::TemplateExists(""@),
    ));
}

/// An address splits exactly where there is a place to split it: for one that starts with a
/// bracket, a closing bracket with a colon behind it; for any other, a colon. The fault otherwise
/// names the address.
pub proof fn law_when_an_address_splits(s: Seq<char>)
    ensures
        s.len() > 0 && s[0] == '[' ==> (address_parts(s) is Ok <==> exists|j: int|
            0 <= j && j + 2 <= s.len() && #[trigger] s.subrange(j, j + 2) == seq![']', ':']),
        s.len() > 0 && s[0] != '[' ==> (address_parts(s) is Ok <==> s.contains(':')),
        s.len() == 0 ==> address_parts(s) is Err,
        address_parts(s) matches Err(fault) ==> fault == if s.len() > 0 && s[0] == '[' {
            ConfigFault::InvalidIpv6(s)
        } else {
            ConfigFault::MissingPort(s)
        },
{
    let pair = seq![']', ':'];
    let colon = seq![':'];
    text::lemma_last_of(s, pair);
    text::lemma_last_of(s, colon);
    if s.len() > 0 && s[0] == '[' {
        if let Some(k) = text::last_of(s, pair) {
            assert(s.subrange(k, k + 2) == pair);
        } else {
            assert forall|j: int| 0 <= j && j + 2 <= s.len() implies #[trigger] s.subrange(j, j + 2)
                != pair by {
                assert(s.subrange(j, j + pair.len()) != pair);
            }
        }
    } else {
        if let Some(k) = text::last_of(s, colon) {
            assert(s.subrange(k, k + 1)[0] == s[k]);
            assert(colon[0] == ':');
            assert(s.contains(':'));
        } else if s.contains(':') {
            let k = s.index_of(':');
            assert(s.subrange(k, k + colon.len()) =~= colon);
        }
    }
}

/// Of two ranges, the listening one is read first; the first that cannot be read is the fault, and
/// where both can be, that they have different numbers of ports.
pub proof fn law_faults_of_ranges(t: TunnelView)
    requires
        address_parts(t.listen) is Ok,
    ensures
        ({
            let l = address_parts(t.listen)->Ok_0.1;
            let f = address_parts(t.forward)->Ok_0.1;
            let both = l.contains('-') && f.contains('-');
            match address_parts(t.forward) {
                Err(fault) => expand_one(t) == Err::<Seq<TunnelView>, _>(fault),
                Ok(_) => both ==> match (port_range(l), port_range(f)) {
                    (Err(fault), _) => expand_one(t) == Err::<Seq<TunnelView>, _>(fault),
                    (_, Err(fault)) => expand_one(t) == Err::<Seq<TunnelView>, _>(fault),
                    (Ok(a), Ok(b)) => a.1 - a.0 != b.1 - b.0 ==> expand_one(t) == Err::<
                        Seq<TunnelView>,
                        _,
                    >(ConfigFault::RangeCountMismatch(a.1 - a.0 + 1, b.1 - b.0 + 1)),
                },
            }
        }),
{
}

/// A configuration can be expanded, or refused with a fault, wherever none of its tunnels is a
/// range over all ports.
pub proof fn law_ranges_can_be_counted(ts: Seq<TunnelView>)
    requires
        forall|i: int| 0 <= i < ts.len() ==> !too_wide(#[trigger] ts[i]),
    ensures
        expandable(ts),
{
}

/// A tunnel is run exactly where it is enabled, and the order is kept.
pub proof fn law_enabled_tunnels_are_run(
    first: Seq<TunnelView>,
    second: Seq<TunnelView>,
    t: TunnelView,
)
    ensures
        enabled_of(first + second) == enabled_of(first) + enabled_of(second),
        enabled_of(seq![t]) == if t.enable {
            seq![t]
        } else {
            Seq::empty()
        },
        enabled_of(Seq::empty()) == Seq::<TunnelView>::empty(),
    decreases second.len(),
{
    reveal(Seq::filter);
    let none = Seq::<TunnelView>::empty();
    assert(seq![t].drop_last() =~= none);
    assert(enabled_of(none) =~= none);
    assert(seq![t].last() == t);
    assert(none.push(t) =~= seq![t]);
    if second.len() == 0 {
        assert(first + second =~= first);
        assert(enabled_of(second) =~= none);
        assert(enabled_of(first) + none =~= enabled_of(first));
    } else {
        let both = first + second;
        law_enabled_tunnels_are_run(first, second.drop_last(), t);
        assert(both.drop_last() =~= first + second.drop_last());
        assert(both.last() == second.last());
        assert(enabled_of(both) =~= enabled_of(first) + enabled_of(second));
    }
}

/// The template is given out, whole, unless there is a file and overwriting it is not forced; the
/// refusal names the file.
pub proof fn law_template_never_replaces_a_file_unasked(path: Seq<char>, present: bool, force: bool)
    ensures
        template_for(path, present, force) is Ok <==> (present ==> force),
        template_for(path, present, force) matches Ok(text) ==> text == TEMPLATE@,
        template_for(path, present, force) matches Err(fault) ==> fault
            == ConfigFault::TemplateExists(path),
{
}

/// What a tunnel, a configuration and an error are seen as is what they hold.
pub proof fn law_views_leave_nothing_out(
    t: Tunnel,
    config: TunnelConfig,
    i: int,
    text: String,
    other: String,
    m: u16,
    n: u16,
)
    requires
        0 <= i < config.tunnel@.len(),
    ensures
        t@.protocol == t.protocol && t@.enable == t.enable,
        t@.listen == t.listen@ && t@.forward == t.forward@,
        config@.len() == config.tunnel@.len() && config@[i] == config.tunnel@[i]@,
        ConfigError::InvalidIpv6(text)@ == ConfigFault::InvalidIpv6(text@),
        ConfigError::MissingPort(text)@ == ConfigFault::MissingPort(text@),
        ConfigError::InvalidPort(text)@ == ConfigFault::InvalidPort(text@),
        ConfigError::RangeReversed(text)@ == ConfigFault::RangeReversed(text@),
        ConfigError::RangeOneSided(text, other)@ == ConfigFault::RangeOneSided(text@, other@),
        ConfigError::RangeCountMismatch(m, n)@ == ConfigFault::RangeCountMismatch(
            m as int,
            n as int,
        ),
        ConfigError::TemplateExists(text)@ == ConfigFault::TemplateExists(text@),
{
}

} // verus!

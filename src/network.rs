//! The network correlation engine: interface counters, listening sockets joined with the
//! processes that own them, grouped by process and container, and annotated with insights.

use vstd::prelude::*;
use crate::sdk::{Section, SectionBody, SectionStatus};
use crate::text::{decimal, decimal_of,
    all_digits, ascii_lower, ascii_lower_of, contains, digits_value, has_infix, has_prefix,
    lemma_views_push, owned, parse_u32, split_char, starts_with, str_eq, u32_of, unsigned_of,
    views,
};
use vstd::string::StrSliceExecFns;
use vstd::string::StringExecFns;

verus! {

/// At most this many sockets are sampled per run, over all protocols together.
pub const MAX_SOCKET_SAMPLES: usize = 20;

/// Counters of one network interface for the current boot.
#[derive(Debug, Clone, PartialEq, Eq)]
pub struct InterfaceInfo {
    pub name: String,
    pub rx_bytes: u64,
    pub tx_bytes: u64,
    pub rx_packets: u64,
    pub tx_packets: u64,
}

/// Exact numbers of listening sockets per protocol.
#[derive(Debug, Clone, Copy, PartialEq, Eq, Structural)]
pub struct ListenerCounts {
    pub tcp: usize,
    pub tcp6: usize,
    pub udp: usize,
    pub udp6: usize,
}

impl ListenerCounts {
    /// The sum of the four counts.
    pub open spec fn sum(&self) -> int {
        self.tcp + self.tcp6 + self.udp + self.udp6
    }

    /// All counts at zero.
    pub fn zero() -> (r: Self)
        ensures
            r.sum() == 0,
            r.tcp == 0 && r.tcp6 == 0 && r.udp == 0 && r.udp6 == 0,
    {
        ListenerCounts { tcp: 0, tcp6: 0, udp: 0, udp6: 0 }
    }

    /// The number of listening sockets over all protocols.
    pub fn total(&self) -> (r: usize)
        requires
            self.sum() <= usize::MAX,
        ensures
            r == self.sum(),
    {
        self.tcp + self.tcp6 + self.udp + self.udp6
    }
}

/// A process that holds a socket.
#[derive(Debug, Clone, PartialEq, Eq)]
pub struct SocketProcessInfo {
    pub pid: i32,
    pub command: String,
    pub uid: u32,
    pub container: Option<String>,
}

/// The mathematical content of a [`SocketProcessInfo`].
pub ghost struct ProcessView {
    pub pid: i32,
    pub command: Seq<char>,
    pub uid: u32,
    pub container: Option<Seq<char>>,
}

/// The view of an optional string.
pub open spec fn opt_view(o: Option<String>) -> Option<Seq<char>> {
    match o {
        Some(s) => Some(s@),
        None => None,
    }
}

impl View for SocketProcessInfo {
    type V = ProcessView;

    open spec fn view(&self) -> ProcessView {
        ProcessView {
            pid: self.pid,
            command: self.command@,
            uid: self.uid,
            container: opt_view(self.container),
        }
    }
}

/// One sampled listening socket with its owners and its well-known service.
#[derive(Debug, Clone, PartialEq, Eq)]
pub struct SocketSample {
    pub protocol: String,
    pub local_address: String,
    pub state: Option<String>,
    pub processes: Vec<SocketProcessInfo>,
    pub service: Option<String>,
}

/// The mathematical content of a [`SocketSample`].
pub ghost struct SampleView {
    pub protocol: Seq<char>,
    pub local_address: Seq<char>,
    pub state: Option<Seq<char>>,
    pub processes: Seq<ProcessView>,
    pub service: Option<Seq<char>>,
}

/// The views of a list of processes.
pub open spec fn pviews(v: Seq<SocketProcessInfo>) -> Seq<ProcessView> {
    v.map_values(|p: SocketProcessInfo| p@)
}

impl View for SocketSample {
    type V = SampleView;

    open spec fn view(&self) -> SampleView {
        SampleView {
            protocol: self.protocol@,
            local_address: self.local_address@,
            state: opt_view(self.state),
            processes: pviews(self.processes@),
            service: opt_view(self.service),
        }
    }
}

/// The views of a list of samples.
pub open spec fn sviews(v: Seq<SocketSample>) -> Seq<SampleView> {
    v.map_values(|s: SocketSample| s@)
}

/// A reference from an insight to a sampled socket.
#[derive(Debug, Clone, PartialEq, Eq)]
pub struct SocketReference {
    pub protocol: String,
    pub local_address: String,
    pub service: Option<String>,
    pub container: Option<String>,
    pub pid: Option<i32>,
}

/// The mathematical content of a [`SocketReference`].
pub ghost struct ReferenceView {
    pub protocol: Seq<char>,
    pub local_address: Seq<char>,
    pub service: Option<Seq<char>>,
    pub container: Option<Seq<char>>,
    pub pid: Option<i32>,
}

impl View for SocketReference {
    type V = ReferenceView;

    open spec fn view(&self) -> ReferenceView {
        ReferenceView {
            protocol: self.protocol@,
            local_address: self.local_address@,
            service: opt_view(self.service),
            container: opt_view(self.container),
            pid: self.pid,
        }
    }
}

/// The views of a list of references.
pub open spec fn rviews(v: Seq<SocketReference>) -> Seq<ReferenceView> {
    v.map_values(|r: SocketReference| r@)
}

/// One rule that fired on the sampled sockets, with every socket that it fired on.
#[derive(Debug, Clone, PartialEq, Eq)]
pub struct ListenerInsight {
    pub rule: String,
    pub severity: String,
    pub message: String,
    pub sockets: Vec<SocketReference>,
}

/// The mathematical content of a [`ListenerInsight`].
pub ghost struct InsightView {
    pub rule: Seq<char>,
    pub severity: Seq<char>,
    pub message: Seq<char>,
    pub sockets: Seq<ReferenceView>,
}

impl View for ListenerInsight {
    type V = InsightView;

    open spec fn view(&self) -> InsightView {
        InsightView {
            rule: self.rule@,
            severity: self.severity@,
            message: self.message@,
            sockets: rviews(self.sockets@),
        }
    }
}

/// The views of a list of insights.
pub open spec fn iviews(v: Seq<ListenerInsight>) -> Seq<InsightView> {
    v.map_values(|i: ListenerInsight| i@)
}

/// The sockets of one process among the samples.
#[derive(Debug, Clone, PartialEq, Eq)]
pub struct ListenerProcessGroup {
    pub pid: i32,
    pub command: String,
    pub uid: u32,
    pub socket_count: usize,
    pub protocols: Vec<String>,
    pub local_addresses: Vec<String>,
}

/// The processes of one container (or of the host) among the samples.
#[derive(Debug, Clone, PartialEq, Eq)]
pub struct ListenerContainerGroup {
    pub container: Option<String>,
    pub socket_count: usize,
    pub process_count: usize,
    pub processes: Vec<ListenerProcessGroup>,
}

/// Everything the engine reports on listening sockets.
#[derive(Debug, Clone, PartialEq, Eq)]
pub struct ListenerSnapshot {
    pub counts: ListenerCounts,
    pub samples: Vec<SocketSample>,
    pub groups: Vec<ListenerContainerGroup>,
    pub insights: Vec<ListenerInsight>,
}

/// The body of the network section.
#[derive(Debug, Clone, PartialEq, Eq)]
pub struct NetworkSnapshot {
    pub interfaces: Vec<InterfaceInfo>,
    pub listeners: ListenerSnapshot,
}

/// The text after the last `c` in `s`, if `c` occurs.
pub open spec fn after_last(s: Seq<char>, c: char) -> Option<Seq<char>>
    decreases s.len(),
{
    if s.len() == 0 {
        None
    } else if s.last() == c {
        Some(Seq::empty())
    } else {
        match after_last(s.drop_last(), c) {
            Some(t) => Some(t.push(s.last())),
            None => None,
        }
    }
}

proof fn lemma_after_last_split(s: Seq<char>, c: char, i: int)
    requires
        0 <= i <= s.len(),
        forall|j: int| i <= j < s.len() ==> s[j] != c,
    ensures
        after_last(s, c) == match after_last(s.subrange(0, i), c) {
            Some(t) => Some(t + s.subrange(i, s.len() as int)),
            None => None,
        },
    decreases s.len(),
{
    if s.len() == i {
        assert(s.subrange(0, i) == s);
        match after_last(s, c) {
            Some(t) => {
                assert(t + s.subrange(i, s.len() as int) == t);
            },
            None => {},
        }
    } else {
        let d = s.drop_last();
        lemma_after_last_split(d, c, i);
        assert(d.subrange(0, i) == s.subrange(0, i));
        match after_last(s.subrange(0, i), c) {
            Some(t) => {
                assert((t + d.subrange(i, d.len() as int)).push(s.last()) == t + s.subrange(
                    i,
                    s.len() as int,
                ));
            },
            None => {},
        }
    }
}

/// The port of an address: the number after its last colon, where it fits in 16 bits.
pub open spec fn port_of(address: Seq<char>) -> Option<u16> {
    match after_last(address, ':') {
        Some(t) => match u32_of(t) {
            Some(v) => if v <= 0xffff { Some(v as u16) } else { None },
            None => None,
        },
        None => None,
    }
}

/// The port of an address: the number after its last colon.
pub fn extract_port(address: &str) -> (r: Option<u16>)
    ensures
        r == port_of(address@),
{
    let n = address.unicode_len();
    let mut i: usize = n;
    while i > 0
        invariant
            n == address@.len(),
            i <= n,
            forall|j: int| i <= j < n ==> address@[j] != ':',
        decreases i,
    {
        if address.get_char(i - 1) == ':' {
            proof {
                lemma_after_last_split(address@, ':', i as int);
                assert(address@.subrange(0, i as int).last() == ':');
                assert(Seq::<char>::empty() + address@.subrange(i as int, n as int)
                    == address@.subrange(i as int, n as int));
            }
            let tail = address.substring_char(i, n);
            return match parse_u32(tail) {
                Some(v) => if v <= 0xffff {
                    Some(v as u16)
                } else {
                    None
                },
                None => None,
            };
        }
        i = i - 1;
    }
    proof {
        lemma_after_last_split(address@, ':', 0);
    }
    None
}

/// The well-known service of a protocol and port.
pub open spec fn service_of(protocol: Seq<char>, port: u16) -> Option<Seq<char>> {
    if protocol == "tcp"@ {
        if port == 21 {
            Some("ftp"@)
        } else if port == 22 {
            Some("ssh"@)
        } else if port == 23 {
            Some("telnet"@)
        } else if port == 25 {
            Some("smtp"@)
        } else if port == 53 {
            Some("dns"@)
        } else if port == 80 {
            Some("http"@)
        } else if port == 110 {
            Some("pop3"@)
        } else if port == 143 {
            Some("imap"@)
        } else if port == 389 {
            Some("ldap"@)
        } else if port == 443 {
            Some("https"@)
        } else if port == 445 {
            Some("smb"@)
        } else if port == 465 {
            Some("smtps"@)
        } else if port == 587 {
            Some("submission"@)
        } else if port == 993 {
            Some("imaps"@)
        } else if port == 995 {
            Some("pop3s"@)
        } else if port == 1433 {
            Some("mssql"@)
        } else if port == 1521 {
            Some("oracle"@)
        } else if port == 2049 {
            Some("nfs"@)
        } else if port == 2375 {
            Some("docker"@)
        } else if port == 3306 {
            Some("mysql"@)
        } else if port == 3389 {
            Some("rdp"@)
        } else if port == 5432 {
            Some("postgresql"@)
        } else if port == 5900 {
            Some("vnc"@)
        } else if port == 6379 {
            Some("redis"@)
        } else if port == 8080 {
            Some("http-alt"@)
        } else if port == 8443 {
            Some("https-alt"@)
        } else {
            None
        }
    } else if protocol == "udp"@ {
        if port == 53 {
            Some("dns"@)
        } else if port == 2049 {
            Some("nfs"@)
        } else {
            None
        }
    } else {
        None
    }
}

fn tcp_service(port: u16) -> (r: Option<&'static str>)
    ensures
        match r {
            Some(s) => service_of("tcp"@, port) == Some(s@),
            None => service_of("tcp"@, port) is None,
        },
{
    if port == 21 {
        Some("ftp")
    } else if port == 22 {
        Some("ssh")
    } else if port == 23 {
        Some("telnet")
    } else if port == 25 {
        Some("smtp")
    } else if port == 53 {
        Some("dns")
    } else if port == 80 {
        Some("http")
    } else if port == 110 {
        Some("pop3")
    } else if port == 143 {
        Some("imap")
    } else if port == 389 {
        Some("ldap")
    } else if port == 443 {
        Some("https")
    } else if port == 445 {
        Some("smb")
    } else if port == 465 {
        Some("smtps")
    } else if port == 587 {
        Some("submission")
    } else if port == 993 {
        Some("imaps")
    } else if port == 995 {
        Some("pop3s")
    } else if port == 1433 {
        Some("mssql")
    } else if port == 1521 {
        Some("oracle")
    } else if port == 2049 {
        Some("nfs")
    } else if port == 2375 {
        Some("docker")
    } else if port == 3306 {
        Some("mysql")
    } else if port == 3389 {
        Some("rdp")
    } else if port == 5432 {
        Some("postgresql")
    } else if port == 5900 {
        Some("vnc")
    } else if port == 6379 {
        Some("redis")
    } else if port == 8080 {
        Some("http-alt")
    } else if port == 8443 {
        Some("https-alt")
    } else {
        None
    }
}

fn udp_service(port: u16) -> (r: Option<&'static str>)
    ensures
        match r {
            Some(s) => service_of("udp"@, port) == Some(s@),
            None => service_of("udp"@, port) is None,
        },
{
    proof {
        reveal_strlit("udp");
        reveal_strlit("tcp");
        assert("udp"@[0] != "tcp"@[0]);
    }
    if port == 53 {
        Some("dns")
    } else if port == 2049 {
        Some("nfs")
    } else {
        None
    }
}

/// The well-known service of a socket, from its protocol (in any case) and its port.
pub open spec fn classify_of(protocol: Seq<char>, address: Seq<char>) -> Option<Seq<char>> {
    match port_of(address) {
        Some(p) => service_of(ascii_lower_of(protocol), p),
        None => None,
    }
}

/// The well-known service of a socket, if its protocol and port are in the table.
pub fn classify_service(protocol: &str, local_address: &str) -> (r: Option<String>)
    ensures
        opt_view(r) == classify_of(protocol@, local_address@),
{
    let port = match extract_port(local_address) {
        Some(p) => p,
        None => return None,
    };
    let key = ascii_lower(protocol);
    let name = if str_eq(key.as_str(), "tcp") {
        tcp_service(port)
    } else if str_eq(key.as_str(), "udp") {
        udp_service(port)
    } else {
        None
    };
    match name {
        Some(s) => Some(owned(s)),
        None => None,
    }
}

/// An address bound to every interface: IPv4 any, IPv6 any, or IPv4-mapped any.
pub open spec fn is_wildcard(address: Seq<char>) -> bool {
    has_prefix(address, "0.0.0.0:"@) || has_prefix(address, ":::"@) || has_prefix(address, "[::]:"@)
        || has_prefix(address, "[::ffff:0.0.0.0]:"@)
}

/// Whether the address is bound to every interface.
pub fn is_wildcard_address(address: &str) -> (r: bool)
    ensures
        r == is_wildcard(address@),
{
    starts_with(address, "0.0.0.0:") || starts_with(address, ":::") || starts_with(address, "[::]:")
        || starts_with(address, "[::ffff:0.0.0.0]:")
}

/// Services whose protocol is legacy or sends credentials in the clear.
pub open spec fn is_insecure_service(s: Seq<char>) -> bool {
    s == "telnet"@ || s == "ftp"@ || s == "pop3"@ || s == "imap"@ || s == "smtp"@ || s == "mysql"@
        || s == "redis"@ || s == "rdp"@ || s == "vnc"@
}

/// Whether a service is legacy or insecure.
pub fn is_insecure(service: &str) -> (r: bool)
    ensures
        r == is_insecure_service(service@),
{
    str_eq(service, "telnet") || str_eq(service, "ftp") || str_eq(service, "pop3") || str_eq(
        service,
        "imap",
    ) || str_eq(service, "smtp") || str_eq(service, "mysql") || str_eq(service, "redis")
        || str_eq(service, "rdp") || str_eq(service, "vnc")
}


/// The first container among a socket's processes.
pub open spec fn first_container(ps: Seq<ProcessView>) -> Option<Seq<char>>
    decreases ps.len(),
{
    if ps.len() == 0 {
        None
    } else if ps[0].container is Some {
        ps[0].container
    } else {
        first_container(ps.drop_first())
    }
}

/// How an insight refers to a sample: its first container and its first process.
pub open spec fn reference_of(s: SampleView) -> ReferenceView {
    ReferenceView {
        protocol: s.protocol,
        local_address: s.local_address,
        service: s.service,
        container: first_container(s.processes),
        pid: if s.processes.len() > 0 {
            Some(s.processes[0].pid)
        } else {
            None
        },
    }
}

/// References to the samples bound to every interface.
pub open spec fn wildcard_refs(ss: Seq<SampleView>) -> Seq<ReferenceView>
    decreases ss.len(),
{
    if ss.len() == 0 {
        Seq::empty()
    } else {
        wildcard_refs(ss.drop_last()) + if is_wildcard(ss.last().local_address) {
            seq![reference_of(ss.last())]
        } else {
            Seq::empty()
        }
    }
}

/// Whether a sample's service is legacy or insecure.
pub open spec fn is_legacy(s: SampleView) -> bool {
    s.service matches Some(v) && is_insecure_service(v)
}

/// References to the samples that expose a legacy or insecure service.
pub open spec fn legacy_refs(ss: Seq<SampleView>) -> Seq<ReferenceView>
    decreases ss.len(),
{
    if ss.len() == 0 {
        Seq::empty()
    } else {
        legacy_refs(ss.drop_last()) + if is_legacy(ss.last()) {
            seq![reference_of(ss.last())]
        } else {
            Seq::empty()
        }
    }
}

/// The insight of one rule, present when it fired on some sample.
pub open spec fn insight_if(
    rule: Seq<char>,
    message: Seq<char>,
    refs: Seq<ReferenceView>,
) -> Seq<InsightView> {
    if refs.len() > 0 {
        seq![InsightView { rule, severity: "warning"@, message, sockets: refs }]
    } else {
        Seq::empty()
    }
}

/// The insights over the samples, ordered by rule name.
pub open spec fn insights_of(ss: Seq<SampleView>) -> Seq<InsightView> {
    insight_if("legacy_protocol"@, "Legacy or insecure protocol exposed"@, legacy_refs(ss))
        + insight_if(
        "wildcard_listener"@,
        "Listener bound to all interfaces"@,
        wildcard_refs(ss),
    )
}

fn copy_opt(o: &Option<String>) -> (r: Option<String>)
    ensures
        opt_view(r) == opt_view(*o),
{
    match o {
        Some(s) => Some(owned(s.as_str())),
        None => None,
    }
}

/// The reference that an insight holds to a sample.
fn reference_for(sample: &SocketSample) -> (r: SocketReference)
    ensures
        r@ == reference_of(sample@),
{
    let ps = &sample.processes;
    let ghost all = pviews(ps@);
    let mut container: Option<String> = None;
    let mut i: usize = 0;
    assert(all.subrange(0, ps@.len() as int) == all);
    while i < ps.len() && container.is_none()
        invariant
            i <= ps@.len(),
            all == pviews(ps@),
            container is None ==> first_container(all) == first_container(
                all.subrange(i as int, ps@.len() as int),
            ),
            container is Some ==> opt_view(container) == first_container(all),
        decreases ps@.len() - i,
    {
        let ghost rest = all.subrange(i as int, ps@.len() as int);
        assert(rest.drop_first() == all.subrange(i + 1, ps@.len() as int));
        assert(rest[0] == ps@[i as int]@);
        container = copy_opt(&ps[i].container);
        i = i + 1;
    }
    let pid = if ps.len() > 0 { Some(ps[0].pid) } else { None };
    SocketReference {
        protocol: owned(sample.protocol.as_str()),
        local_address: owned(sample.local_address.as_str()),
        service: copy_opt(&sample.service),
        container,
        pid,
    }
}

proof fn lemma_rviews_push(v: Seq<SocketReference>, x: SocketReference)
    ensures
        rviews(v.push(x)) == rviews(v).push(x@),
{
    assert(rviews(v.push(x)) =~= rviews(v).push(x@));
}

/// The insights of the two fixed rules over the samples: sockets bound to every interface,
/// and sockets exposing a legacy or insecure service. Each rule yields at most one insight,
/// holding every socket it fired on; insights come in the order of their rule names.
pub fn derive_listener_insights(samples: &[SocketSample]) -> (r: Vec<ListenerInsight>)
    ensures
        iviews(r@) == insights_of(sviews(samples@)),
{
    let mut wildcard: Vec<SocketReference> = Vec::new();
    let mut legacy: Vec<SocketReference> = Vec::new();
    let mut i: usize = 0;
    while i < samples.len()
        invariant
            i <= samples@.len(),
            rviews(wildcard@) == wildcard_refs(sviews(samples@).subrange(0, i as int)),
            rviews(legacy@) == legacy_refs(sviews(samples@).subrange(0, i as int)),
        decreases samples@.len() - i,
    {
        let sample = &samples[i];
        let ghost pre = sviews(samples@).subrange(0, i as int);
        assert(sviews(samples@).subrange(0, i + 1).drop_last() == pre);
        assert(sviews(samples@).subrange(0, i + 1).last() == sample@);
        let ghost w0 = rviews(wildcard@);
        let ghost l0 = rviews(legacy@);
        if is_wildcard_address(sample.local_address.as_str()) {
            let r = reference_for(sample);
            proof {
                lemma_rviews_push(wildcard@, r);
            }
            wildcard.push(r);
        }
        assert(rviews(wildcard@) =~= wildcard_refs(sviews(samples@).subrange(0, i + 1)));
        let legacy_hit = match &sample.service {
            Some(service) => is_insecure(service.as_str()),
            None => false,
        };
        if legacy_hit {
            let r = reference_for(sample);
            proof {
                lemma_rviews_push(legacy@, r);
            }
            legacy.push(r);
        }
        assert(rviews(legacy@) =~= legacy_refs(sviews(samples@).subrange(0, i + 1)));
        i = i + 1;
    }
    assert(sviews(samples@).subrange(0, samples@.len() as int) == sviews(samples@));
    let mut insights: Vec<ListenerInsight> = Vec::new();
    if legacy.len() > 0 {
        insights.push(
            ListenerInsight {
                rule: String::from_str("legacy_protocol"),
                severity: String::from_str("warning"),
                message: String::from_str("Legacy or insecure protocol exposed"),
                sockets: legacy,
            },
        );
    }
    if wildcard.len() > 0 {
        insights.push(
            ListenerInsight {
                rule: String::from_str("wildcard_listener"),
                severity: String::from_str("warning"),
                message: String::from_str("Listener bound to all interfaces"),
                sockets: wildcard,
            },
        );
    }
    assert(iviews(insights@) =~= insights_of(sviews(samples@)));
    insights
}


/// `s` without the copies of `c` at either end.
pub open spec fn trim_char_of(s: Seq<char>, c: char) -> Seq<char>
    decreases s.len(),
{
    if s.len() > 0 && s[0] == c {
        trim_char_of(s.drop_first(), c)
    } else if s.len() > 0 && s.last() == c {
        trim_char_of(s.drop_last(), c)
    } else {
        s
    }
}

/// The text of `s` before its first `c` (all of `s` without one).
pub open spec fn before_char(s: Seq<char>, c: char) -> Seq<char>
    decreases s.len(),
{
    if s.len() == 0 {
        s
    } else if s[0] == c {
        Seq::empty()
    } else {
        seq![s[0]] + before_char(s.drop_first(), c)
    }
}

/// `i` is the first position where `p` occurs in `s`.
pub open spec fn first_occurrence(s: Seq<char>, p: Seq<char>, i: int) -> bool {
    crate::text::occurs_at(s, p, i) && forall|j: int| 0 <= j < i ==> !crate::text::occurs_at(s, p, j)
}

/// The container of a cgroup path: after `docker/`, the text up to the next slash; else,
/// under `kubepods/`, the last segment; else none.
pub open spec fn container_of_path(path: Seq<char>) -> Option<Seq<char>> {
    let p = trim_char_of(path, '/');
    if has_infix(p, "docker/"@) {
        let i = choose|i: int| first_occurrence(p, "docker/"@, i);
        Some(before_char(p.subrange(i + 7, p.len() as int), '/'))
    } else if has_infix(p, "kubepods/"@) {
        match after_last(p, '/') {
            Some(t) => Some(t),
            None => Some(p),
        }
    } else {
        None
    }
}

/// The container of the first cgroup path that names one.
pub open spec fn container_of_paths(paths: Seq<Seq<char>>) -> Option<Seq<char>>
    decreases paths.len(),
{
    if paths.len() == 0 {
        None
    } else {
        match container_of_path(paths[0]) {
            Some(c) => Some(c),
            None => container_of_paths(paths.drop_first()),
        }
    }
}

/// `s` without the copies of `c` at either end.
fn trim_char(s: &str, c: char) -> (r: String)
    ensures
        r@ == trim_char_of(s@, c),
{
    let n = s.unicode_len();
    let mut i: usize = 0;
    let mut j: usize = n;
    assert(s@.subrange(0, n as int) == s@);
    while i < j && (s.get_char(i) == c || s.get_char(j - 1) == c)
        invariant
            n == s@.len(),
            i <= j <= n,
            trim_char_of(s@, c) == trim_char_of(s@.subrange(i as int, j as int), c),
        decreases j - i,
    {
        let ghost t = s@.subrange(i as int, j as int);
        if s.get_char(i) == c {
            assert(t.drop_first() == s@.subrange(i + 1, j as int));
            i = i + 1;
        } else {
            assert(t.drop_last() == s@.subrange(i as int, j - 1));
            j = j - 1;
        }
    }
    owned(s.substring_char(i, j))
}

proof fn lemma_before_char(s: Seq<char>, c: char, k: int)
    requires
        0 <= k <= s.len(),
        forall|j: int| 0 <= j < k ==> s[j] != c,
        k == s.len() || s[k] == c,
    ensures
        before_char(s, c) == s.subrange(0, k),
    decreases s.len(),
{
    if s.len() > 0 && s[0] != c {
        lemma_before_char(s.drop_first(), c, k - 1);
        assert(seq![s[0]] + s.drop_first().subrange(0, k - 1) == s.subrange(0, k));
    } else if s.len() == 0 {
        assert(s.subrange(0, k) == s);
    }
}

/// The text of `s` before its first `c`.
fn text_before(s: &str, c: char) -> (r: String)
    ensures
        r@ == before_char(s@, c),
{
    let n = s.unicode_len();
    let mut k: usize = 0;
    while k < n && s.get_char(k) != c
        invariant
            n == s@.len(),
            k <= n,
            forall|j: int| 0 <= j < k ==> s@[j] != c,
        decreases n - k,
    {
        k = k + 1;
    }
    proof {
        lemma_before_char(s@, c, k as int);
    }
    owned(s.substring_char(0, k))
}

/// The first position of `p` in `s`, if it occurs.
pub fn find(s: &str, p: &str) -> (r: Option<usize>)
    ensures
        match r {
            Some(i) => first_occurrence(s@, p@, i as int),
            None => !has_infix(s@, p@),
        },
{
    let n = s.unicode_len();
    let m = p.unicode_len();
    if m > n {
        return None;
    }
    let mut i: usize = 0;
    while i <= n - m
        invariant
            n == s@.len(),
            m == p@.len(),
            m <= n,
            i <= n - m + 1,
            forall|j: int| 0 <= j < i ==> !crate::text::occurs_at(s@, p@, j),
        decreases n - m + 1 - i,
    {
        if str_eq(s.substring_char(i, i + m), p) {
            return Some(i);
        }
        if i == n - m {
            assert forall|j: int| !crate::text::occurs_at(s@, p@, j) by {
                if 0 <= j && j + m <= n {
                    assert(j <= i);
                }
            }
            return None;
        }
        i = i + 1;
    }
    None
}

pub proof fn lemma_first_occurrence_unique(s: Seq<char>, p: Seq<char>, i: int, j: int)
    requires
        first_occurrence(s, p, i),
        first_occurrence(s, p, j),
    ensures
        i == j,
{
}

/// The container of a cgroup path, if the path names one.
fn container_from_path(path: &str) -> (r: Option<String>)
    ensures
        opt_view(r) == container_of_path(path@),
{
    let p = trim_char(path, '/');
    match find(p.as_str(), "docker/") {
        Some(i) => {
            proof {
                reveal_strlit("docker/");
                let k = choose|k: int| first_occurrence(p@, "docker/"@, k);
                lemma_first_occurrence_unique(p@, "docker/"@, i as int, k);
            }
            let n = p.as_str().unicode_len();
            let rest = p.as_str().substring_char(i + 7, n);
            Some(text_before(rest, '/'))
        },
        None => {
            if contains(p.as_str(), "kubepods/") {
                match rfind_after(p.as_str(), '/') {
                    Some(t) => Some(t),
                    None => Some(p),
                }
            } else {
                None
            }
        },
    }
}

/// The text after the last `c` in `s`, if `c` occurs.
fn rfind_after(s: &str, c: char) -> (r: Option<String>)
    ensures
        opt_view(r) == after_last(s@, c),
{
    let n = s.unicode_len();
    let mut i: usize = n;
    while i > 0
        invariant
            n == s@.len(),
            i <= n,
            forall|j: int| i <= j < n ==> s@[j] != c,
        decreases i,
    {
        if s.get_char(i - 1) == c {
            proof {
                lemma_after_last_split(s@, c, i as int);
                assert(s@.subrange(0, i as int).last() == c);
                assert(Seq::<char>::empty() + s@.subrange(i as int, n as int) == s@.subrange(
                    i as int,
                    n as int,
                ));
            }
            return Some(owned(s.substring_char(i, n)));
        }
        i = i - 1;
    }
    proof {
        lemma_after_last_split(s@, c, 0);
    }
    None
}

/// The container of a process, from the first of its cgroup paths that names one: after
/// `docker/` the identifier up to the next slash, under `kubepods/` the last path segment.
pub fn extract_container_from_cgroups(paths: &Vec<String>) -> (r: Option<String>)
    ensures
        opt_view(r) == container_of_paths(views(paths@)),
{
    let mut i: usize = 0;
    assert(views(paths@).subrange(0, paths@.len() as int) == views(paths@));
    while i < paths.len()
        invariant
            i <= paths@.len(),
            container_of_paths(views(paths@)) == container_of_paths(
                views(paths@).subrange(i as int, paths@.len() as int),
            ),
        decreases paths@.len() - i,
    {
        let ghost rest = views(paths@).subrange(i as int, paths@.len() as int);
        assert(rest.drop_first() == views(paths@).subrange(i + 1, paths@.len() as int));
        assert(rest[0] == paths@[i as int]@);
        match container_from_path(paths[i].as_str()) {
            Some(c) => return Some(c),
            None => {},
        }
        i = i + 1;
    }
    None
}


/// One entry of a kernel socket table.
#[derive(Debug, Clone)]
pub struct SocketEntry {
    pub local_address: String,
    pub inode: u64,
    /// Whether a TCP socket is in the listen state (UDP entries ignore it).
    pub listening: bool,
}

/// The four socket tables as read, each with the error text where it could not be read.
pub struct SocketTables {
    pub tcp: Result<Vec<SocketEntry>, String>,
    pub tcp6: Result<Vec<SocketEntry>, String>,
    pub udp: Result<Vec<SocketEntry>, String>,
    pub udp6: Result<Vec<SocketEntry>, String>,
}

/// What could be read of one process: each part may be missing.
#[derive(Debug, Clone)]
pub struct ProcessRecord {
    pub pid: i32,
    pub command: Option<String>,
    pub uid: Option<u32>,
    pub cgroups: Option<Vec<String>>,
    pub socket_inodes: Vec<u64>,
}

/// The process information attached to a socket: `?` for an unknown command, uid 0 for an
/// unknown owner, the container derived from the cgroup paths.
pub open spec fn info_of(r: ProcessRecord) -> ProcessView {
    ProcessView {
        pid: r.pid,
        command: match r.command {
            Some(c) => c@,
            None => "?"@,
        },
        uid: match r.uid {
            Some(u) => u,
            None => 0,
        },
        container: match r.cgroups {
            Some(cg) => container_of_paths(views(cg@)),
            None => None,
        },
    }
}

/// The processes that hold socket `inode`, in process order.
pub open spec fn owners(rs: Seq<ProcessRecord>, inode: u64) -> Seq<ProcessView>
    decreases rs.len(),
{
    if rs.len() == 0 {
        Seq::empty()
    } else {
        owners(rs.drop_last(), inode) + if rs.last().socket_inodes@.contains(inode) {
            seq![info_of(rs.last())]
        } else {
            Seq::empty()
        }
    }
}

fn process_info(r: &ProcessRecord) -> (p: SocketProcessInfo)
    ensures
        p@ == info_of(*r),
{
    SocketProcessInfo {
        pid: r.pid,
        command: match &r.command {
            Some(c) => owned(c.as_str()),
            None => String::from_str("?"),
        },
        uid: match r.uid {
            Some(u) => u,
            None => 0,
        },
        container: match &r.cgroups {
            Some(cg) => extract_container_from_cgroups(cg),
            None => None,
        },
    }
}

fn holds_inode(inodes: &Vec<u64>, inode: u64) -> (r: bool)
    ensures
        r == inodes@.contains(inode),
{
    let mut i: usize = 0;
    while i < inodes.len()
        invariant
            i <= inodes@.len(),
            forall|j: int| 0 <= j < i ==> inodes@[j] != inode,
        decreases inodes@.len() - i,
    {
        if inodes[i] == inode {
            return true;
        }
        i = i + 1;
    }
    false
}

proof fn lemma_pviews_push(v: Seq<SocketProcessInfo>, x: SocketProcessInfo)
    ensures
        pviews(v.push(x)) == pviews(v).push(x@),
{
    assert(pviews(v.push(x)) =~= pviews(v).push(x@));
}

/// The processes that hold socket `inode`; a socket that no process holds (one whose process
/// has gone since) has none.
pub fn processes_for_inode(records: &Vec<ProcessRecord>, inode: u64) -> (r: Vec<
    SocketProcessInfo,
>)
    ensures
        pviews(r@) == owners(records@, inode),
{
    let mut out: Vec<SocketProcessInfo> = Vec::new();
    let mut i: usize = 0;
    while i < records.len()
        invariant
            i <= records@.len(),
            pviews(out@) == owners(records@.subrange(0, i as int), inode),
        decreases records@.len() - i,
    {
        assert(records@.subrange(0, i + 1).drop_last() == records@.subrange(0, i as int));
        if holds_inode(&records[i].socket_inodes, inode) {
            let p = process_info(&records[i]);
            proof {
                lemma_pviews_push(out@, p);
            }
            out.push(p);
        }
        assert(pviews(out@) =~= owners(records@.subrange(0, i + 1), inode));
        i = i + 1;
    }
    assert(records@.subrange(0, records@.len() as int) == records@);
    out
}

/// The entries of a table that count: listening ones for TCP, all of them for UDP.
pub open spec fn counted(es: Seq<SocketEntry>, tcp_like: bool) -> Seq<SocketEntry>
    decreases es.len(),
{
    if es.len() == 0 {
        Seq::empty()
    } else {
        counted(es.drop_last(), tcp_like) + if !tcp_like || es.last().listening {
            seq![es.last()]
        } else {
            Seq::empty()
        }
    }
}

/// The sample of one socket.
pub open spec fn sample_of(
    protocol: Seq<char>,
    tcp_like: bool,
    e: SocketEntry,
    rs: Seq<ProcessRecord>,
) -> SampleView {
    SampleView {
        protocol,
        local_address: e.local_address@,
        state: if tcp_like {
            Some("Listen"@)
        } else {
            None
        },
        processes: owners(rs, e.inode),
        service: classify_of(protocol, e.local_address@),
    }
}

/// The samples of a list of sockets.
pub open spec fn samples_of(
    protocol: Seq<char>,
    tcp_like: bool,
    es: Seq<SocketEntry>,
    rs: Seq<ProcessRecord>,
) -> Seq<SampleView> {
    es.map_values(|e: SocketEntry| sample_of(protocol, tcp_like, e, rs))
}

/// `prev` followed by as many of `more` as the sample cap leaves room for.
pub open spec fn capped(prev: Seq<SampleView>, more: Seq<SampleView>) -> Seq<SampleView> {
    let room = MAX_SOCKET_SAMPLES - prev.len();
    if room <= 0 {
        prev
    } else if more.len() <= room {
        prev + more
    } else {
        prev + more.subrange(0, room)
    }
}

/// The entries of a table that could be read, none of one that could not.
pub open spec fn table_entries(t: Result<Vec<SocketEntry>, String>) -> Seq<SocketEntry> {
    match t {
        Ok(v) => v@,
        Err(_) => Seq::empty(),
    }
}

/// The samples of a run: TCP, TCP6, UDP, UDP6 in that order, capped over all of them.
pub open spec fn samples_spec(t: SocketTables, rs: Seq<ProcessRecord>) -> Seq<SampleView> {
    capped(
        capped(
            capped(
                capped(Seq::empty(), samples_of("tcp"@, true, counted(table_entries(t.tcp), true), rs)),
                samples_of("tcp6"@, true, counted(table_entries(t.tcp6), true), rs),
            ),
            samples_of("udp"@, false, counted(table_entries(t.udp), false), rs),
        ),
        samples_of("udp6"@, false, counted(table_entries(t.udp6), false), rs),
    )
}

/// The note for a table that could not be read.
pub open spec fn table_note(path: Seq<char>, t: Result<Vec<SocketEntry>, String>) -> Seq<Seq<char>> {
    match t {
        Ok(_) => Seq::empty(),
        Err(e) => seq!["Failed to read "@ + path + ": "@ + e@],
    }
}

/// The notes of a run, one per unreadable table.
pub open spec fn notes_spec(t: SocketTables) -> Seq<Seq<char>> {
    table_note("/proc/net/tcp"@, t.tcp) + table_note("/proc/net/tcp6"@, t.tcp6) + table_note(
        "/proc/net/udp"@,
        t.udp,
    ) + table_note("/proc/net/udp6"@, t.udp6)
}

proof fn lemma_sviews_push(v: Seq<SocketSample>, x: SocketSample)
    ensures
        sviews(v.push(x)) == sviews(v).push(x@),
{
    assert(sviews(v.push(x)) =~= sviews(v).push(x@));
}

/// Counts the entries of one table and samples them while the cap leaves room.
fn take_table(
    entries: &Vec<SocketEntry>,
    protocol: &str,
    tcp_like: bool,
    records: &Vec<ProcessRecord>,
    samples: &mut Vec<SocketSample>,
) -> (count: usize)
    requires
        old(samples)@.len() <= MAX_SOCKET_SAMPLES,
    ensures
        count == counted(entries@, tcp_like).len(),
        sviews(final(samples)@) == capped(
            sviews(old(samples)@),
            samples_of(protocol@, tcp_like, counted(entries@, tcp_like), records@),
        ),
        final(samples)@.len() <= MAX_SOCKET_SAMPLES,
{
    let ghost start = sviews(samples@);
    let ghost all = samples_of(protocol@, tcp_like, counted(entries@, tcp_like), records@);
    let mut count: usize = 0;
    let mut i: usize = 0;
    while i < entries.len()
        invariant
            i <= entries@.len(),
            count == counted(entries@.subrange(0, i as int), tcp_like).len(),
            count <= i,
            all == samples_of(protocol@, tcp_like, counted(entries@, tcp_like), records@),
            sviews(samples@) == capped(
                start,
                samples_of(protocol@, tcp_like, counted(entries@.subrange(0, i as int), tcp_like), records@),
            ),
            samples@.len() <= MAX_SOCKET_SAMPLES,
            start.len() <= MAX_SOCKET_SAMPLES,
        decreases entries@.len() - i,
    {
        let e = &entries[i];
        let ghost pre = counted(entries@.subrange(0, i as int), tcp_like);
        assert(entries@.subrange(0, i + 1).drop_last() == entries@.subrange(0, i as int));
        if !tcp_like || e.listening {
            let ghost post = counted(entries@.subrange(0, i + 1), tcp_like);
            assert(post == pre.push(*e));
            let ghost m0 = samples_of(protocol@, tcp_like, pre, records@);
            let ghost m1 = samples_of(protocol@, tcp_like, post, records@);
            assert(m1 =~= m0.push(sample_of(protocol@, tcp_like, *e, records@)));
            if samples.len() < MAX_SOCKET_SAMPLES {
                let local_address = owned(e.local_address.as_str());
                let service = classify_service(protocol, e.local_address.as_str());
                let state = if tcp_like { Some(String::from_str("Listen")) } else { None };
                let sample = SocketSample {
                    protocol: owned(protocol),
                    local_address,
                    state,
                    processes: processes_for_inode(records, e.inode),
                    service,
                };
                proof {
                    lemma_sviews_push(samples@, sample);
                }
                samples.push(sample);
                assert(sviews(samples@) =~= capped(start, m1));
            } else {
                assert(sviews(samples@) =~= capped(start, m1));
            }
            count = count + 1;
        } else {
            assert(counted(entries@.subrange(0, i + 1), tcp_like) =~= pre);
        }
        i = i + 1;
    }
    assert(entries@.subrange(0, entries@.len() as int) == entries@);
    count
}

/// The listener view of a run: exact counts, capped samples, their groups and insights.
pub open spec fn listeners_spec(l: ListenerSnapshot, tables: SocketTables, rs: Seq<ProcessRecord>) -> bool {
    &&& l.counts.tcp == counted(table_entries(tables.tcp), true).len()
    &&& l.counts.tcp6 == counted(table_entries(tables.tcp6), true).len()
    &&& l.counts.udp == counted(table_entries(tables.udp), false).len()
    &&& l.counts.udp6 == counted(table_entries(tables.udp6), false).len()
    &&& sviews(l.samples@) == samples_spec(tables, rs)
    &&& groups_when_fit(l.groups@, sviews(l.samples@))
    &&& iviews(l.insights@) == insights_of(sviews(l.samples@))
}

/// The groups of the samples, where their (socket, process) pairs can be counted in a
/// `usize`; none otherwise.
pub open spec fn groups_when_fit(gs: Seq<ListenerContainerGroup>, ss: Seq<SampleView>) -> bool {
    if pairs_of(ss).len() < usize::MAX {
        groups_ok(gs, pairs_of(ss)) && group_sum(gs) == pairs_of(ss).len()
    } else {
        gs.len() == 0
    }
}

/// Counts and samples the four socket tables, in the order TCP, TCP6, UDP, UDP6; a table
/// that cannot be read counts zero and leaves a note. Counts are exact; at most
/// `MAX_SOCKET_SAMPLES` sockets are sampled, the first ones in that order.
pub fn gather_listeners(tables: SocketTables, records: &Vec<ProcessRecord>) -> (r: (
    ListenerSnapshot,
    Vec<String>,
))
    ensures
        listeners_spec(r.0, tables, records@),
        views(r.1@) == notes_spec(tables),
        r.0.samples@.len() <= MAX_SOCKET_SAMPLES,
        r.0.samples@.len() <= r.0.counts.sum(),
        r.0.counts.sum() <= MAX_SOCKET_SAMPLES ==> r.0.samples@.len() == r.0.counts.sum(),
{
    let mut samples: Vec<SocketSample> = Vec::new();
    let mut notes: Vec<String> = Vec::new();
    let mut counts = ListenerCounts::zero();
    let ghost t = tables;
    let ghost mut expect: Seq<Seq<char>> = Seq::empty();
    assert(views(notes@) =~= expect);

    match &tables.tcp {
        Ok(es) => { counts.tcp = take_table(es, "tcp", true, records, &mut samples); },
        Err(e) => {
            let mut note = String::from_str("Failed to read ");
            note.append("/proc/net/tcp");
            note.append(": ");
            note.append(e.as_str());
            proof { lemma_views_push(notes@, note); }
            notes.push(note);
            assert(sviews(samples@) =~= capped(Seq::empty(), Seq::empty()));
        },
    }
    proof { expect = expect + table_note("/proc/net/tcp"@, t.tcp); }
    assert(views(notes@) =~= expect);
    match &tables.tcp6 {
        Ok(es) => { counts.tcp6 = take_table(es, "tcp6", true, records, &mut samples); },
        Err(e) => {
            let mut note = String::from_str("Failed to read ");
            note.append("/proc/net/tcp6");
            note.append(": ");
            note.append(e.as_str());
            proof { lemma_views_push(notes@, note); }
            notes.push(note);
            assert(sviews(samples@) =~= capped(sviews(samples@), Seq::empty()));
        },
    }
    proof { expect = expect + table_note("/proc/net/tcp6"@, t.tcp6); }
    assert(views(notes@) =~= expect);
    match &tables.udp {
        Ok(es) => { counts.udp = take_table(es, "udp", false, records, &mut samples); },
        Err(e) => {
            let mut note = String::from_str("Failed to read ");
            note.append("/proc/net/udp");
            note.append(": ");
            note.append(e.as_str());
            proof { lemma_views_push(notes@, note); }
            notes.push(note);
            assert(sviews(samples@) =~= capped(sviews(samples@), Seq::empty()));
        },
    }
    proof { expect = expect + table_note("/proc/net/udp"@, t.udp); }
    assert(views(notes@) =~= expect);
    match &tables.udp6 {
        Ok(es) => { counts.udp6 = take_table(es, "udp6", false, records, &mut samples); },
        Err(e) => {
            let mut note = String::from_str("Failed to read ");
            note.append("/proc/net/udp6");
            note.append(": ");
            note.append(e.as_str());
            proof { lemma_views_push(notes@, note); }
            notes.push(note);
            assert(sviews(samples@) =~= capped(sviews(samples@), Seq::empty()));
        },
    }
    proof { expect = expect + table_note("/proc/net/udp6"@, t.udp6); }
    assert(views(notes@) =~= expect);

    let insights = derive_listener_insights(samples.as_slice());
    proof {
        lemma_counts_cover_samples(tables, records@);
    }
    let groups = match listener_groups(samples.as_slice()) {
        Some(g) => g,
        None => Vec::new(),
    };
    (ListenerSnapshot { counts, samples, groups, insights }, notes)
}

/// The counts cover every sample, and equal the number of samples whenever no more than
/// `MAX_SOCKET_SAMPLES` sockets listen.
pub proof fn lemma_counts_cover_samples(tables: SocketTables, records: Seq<ProcessRecord>)
    ensures
        ({
            let total = counted(table_entries(tables.tcp), true).len() + counted(
                table_entries(tables.tcp6),
                true,
            ).len() + counted(table_entries(tables.udp), false).len() + counted(
                table_entries(tables.udp6),
                false,
            ).len();
            &&& samples_spec(tables, records).len() <= total
            &&& total <= MAX_SOCKET_SAMPLES ==> samples_spec(tables, records).len() == total
            &&& samples_spec(tables, records).len() <= MAX_SOCKET_SAMPLES
        }),
{
}


/// Lexicographic order of character sequences, by code point.
pub open spec fn seq_lt(a: Seq<char>, b: Seq<char>) -> bool
    decreases a.len(),
{
    if a.len() == 0 {
        b.len() > 0
    } else if b.len() == 0 {
        false
    } else if a[0] != b[0] {
        a[0] < b[0]
    } else {
        seq_lt(a.drop_first(), b.drop_first())
    }
}

pub proof fn lemma_seq_lt_total(a: Seq<char>, b: Seq<char>)
    ensures
        a == b || seq_lt(a, b) || seq_lt(b, a),
    decreases a.len(),
{
    if a.len() > 0 && b.len() > 0 && a[0] == b[0] {
        lemma_seq_lt_total(a.drop_first(), b.drop_first());
        if a.drop_first() == b.drop_first() {
            assert(a == seq![a[0]] + a.drop_first());
            assert(b == seq![b[0]] + b.drop_first());
        }
    } else if a.len() == 0 && b.len() == 0 {
        assert(a == b);
    }
}

/// Whether `a` sorts before `b`.
pub fn str_lt(a: &str, b: &str) -> (r: bool)
    ensures
        r == seq_lt(a@, b@),
{
    let n = a.unicode_len();
    let m = b.unicode_len();
    let mut i: usize = 0;
    assert(a@.subrange(0, n as int) == a@);
    assert(b@.subrange(0, m as int) == b@);
    while i < n && i < m && a.get_char(i) == b.get_char(i)
        invariant
            n == a@.len(),
            m == b@.len(),
            i <= n,
            i <= m,
            seq_lt(a@, b@) == seq_lt(a@.subrange(i as int, n as int), b@.subrange(i as int, m as int)),
        decreases n - i,
    {
        assert(a@.subrange(i as int, n as int).drop_first() == a@.subrange(i + 1, n as int));
        assert(b@.subrange(i as int, m as int).drop_first() == b@.subrange(i + 1, m as int));
        i = i + 1;
    }
    if i == n {
        i < m
    } else if i == m {
        false
    } else {
        a.get_char(i) < b.get_char(i)
    }
}

/// Neighbours are in strictly increasing order.
pub open spec fn strictly_sorted(v: Seq<Seq<char>>) -> bool {
    forall|i: int| 0 <= i < v.len() - 1 ==> seq_lt(#[trigger] v[i], v[i + 1])
}

/// Adds `s` to a strictly sorted list of distinct strings, keeping it sorted.
fn insert_sorted(v: &mut Vec<String>, s: &String)
    requires
        strictly_sorted(views(old(v)@)),
    ensures
        strictly_sorted(views(final(v)@)),
        views(final(v)@).to_set() == views(old(v)@).to_set().insert(s@),
{
    let n = v.len();
    let mut i: usize = 0;
    while i < n
        invariant
            n == v@.len(),
            v@ == old(v)@,
            strictly_sorted(views(old(v)@)),
            i <= n,
            forall|j: int| 0 <= j < i ==> v@[j]@ != s@,
        decreases n - i,
    {
        if str_eq(v[i].as_str(), s.as_str()) {
            assert(views(v@)[i as int] == s@);
            assert(views(v@).to_set() =~= views(v@).to_set().insert(s@));
            assert(views(v@) == views(old(v)@));
            assert(strictly_sorted(views(v@)));
            return;
        }
        i = i + 1;
    }
    let mut k: usize = 0;
    while k < n && str_lt(v[k].as_str(), s.as_str())
        invariant
            n == v@.len(),
            v@ == old(v)@,
            strictly_sorted(views(old(v)@)),
            k <= n,
            k > 0 ==> seq_lt(v@[k - 1]@, s@),
        decreases n - k,
    {
        k = k + 1;
    }
    proof {
        if k < n {
            lemma_seq_lt_total(v@[k as int]@, s@);
            assert(v@[k as int]@ != s@);
        }
    }
    let ghost old_views = views(v@);
    v.insert(k, owned(s.as_str()));
    assert(views(v@) =~= old_views.insert(k as int, s@));
    assert forall|j: int| 0 <= j < views(v@).len() - 1 implies seq_lt(
        #[trigger] views(v@)[j],
        views(v@)[j + 1],
    ) by {
        if j < k - 1 {
            assert(views(v@)[j] == old_views[j]);
            assert(views(v@)[j + 1] == old_views[j + 1]);
        } else if j == k - 1 {
        } else if j == k {
        } else {
            assert(views(v@)[j] == old_views[j - 1]);
            assert(views(v@)[j + 1] == old_views[j]);
        }
    }
    assert forall|x: Seq<char>| views(v@).to_set().contains(x) == old_views.to_set().insert(
        s@,
    ).contains(x) by {
        if views(v@).to_set().contains(x) {
            let j = choose|j: int| 0 <= j < views(v@).len() && views(v@)[j] == x;
            if j < k {
                assert(old_views[j] == x);
            } else if j > k {
                assert(old_views[j - 1] == x);
            }
        }
        if old_views.to_set().contains(x) {
            let j = choose|j: int| 0 <= j < old_views.len() && old_views[j] == x;
            if j < k {
                assert(views(v@)[j] == x);
            } else {
                assert(views(v@)[j + 1] == x);
            }
        }
        if x == s@ {
            assert(views(v@)[k as int] == x);
        }
    }
    assert(views(v@).to_set() =~= old_views.to_set().insert(s@));
}


/// Each process of a sample, paired with the sample.
pub open spec fn sample_pairs(s: SampleView) -> Seq<(SampleView, ProcessView)> {
    s.processes.map_values(|p: ProcessView| (s, p))
}

/// Every (sample, owning process) pair, sample by sample.
pub open spec fn pairs_of(ss: Seq<SampleView>) -> Seq<(SampleView, ProcessView)>
    decreases ss.len(),
{
    if ss.len() == 0 {
        Seq::empty()
    } else {
        pairs_of(ss.drop_last()) + sample_pairs(ss.last())
    }
}

/// How many sockets process `pid` holds among the pairs.
pub open spec fn pid_count(prs: Seq<(SampleView, ProcessView)>, pid: i32) -> nat
    decreases prs.len(),
{
    if prs.len() == 0 {
        0
    } else {
        pid_count(prs.drop_last(), pid) + if prs.last().1.pid == pid {
            1nat
        } else {
            0nat
        }
    }
}

/// The protocols of the sockets of process `pid`.
pub open spec fn pid_protocols(prs: Seq<(SampleView, ProcessView)>, pid: i32) -> Set<Seq<char>>
    decreases prs.len(),
{
    if prs.len() == 0 {
        Set::empty()
    } else if prs.last().1.pid == pid {
        pid_protocols(prs.drop_last(), pid).insert(prs.last().0.protocol)
    } else {
        pid_protocols(prs.drop_last(), pid)
    }
}

/// The local addresses of the sockets of process `pid`.
pub open spec fn pid_addresses(prs: Seq<(SampleView, ProcessView)>, pid: i32) -> Set<Seq<char>>
    decreases prs.len(),
{
    if prs.len() == 0 {
        Set::empty()
    } else if prs.last().1.pid == pid {
        pid_addresses(prs.drop_last(), pid).insert(prs.last().0.local_address)
    } else {
        pid_addresses(prs.drop_last(), pid)
    }
}

/// The first entry of process `pid` among the pairs.
pub open spec fn first_info(prs: Seq<(SampleView, ProcessView)>, pid: i32) -> Option<ProcessView>
    decreases prs.len(),
{
    if prs.len() == 0 {
        None
    } else {
        match first_info(prs.drop_last(), pid) {
            Some(x) => Some(x),
            None => if prs.last().1.pid == pid {
                Some(prs.last().1)
            } else {
                None
            },
        }
    }
}

/// A process group that describes process `q.pid` among the pairs, whose first entry
/// belongs to `container`.
pub open spec fn group_describes(
    q: ListenerProcessGroup,
    container: Option<Seq<char>>,
    prs: Seq<(SampleView, ProcessView)>,
) -> bool {
    &&& first_info(prs, q.pid) matches Some(x) && x.command == q.command@ && x.uid == q.uid
        && x.container == container
    &&& q.socket_count == pid_count(prs, q.pid)
    &&& strictly_sorted(views(q.protocols@))
    &&& views(q.protocols@).to_set() == pid_protocols(prs, q.pid)
    &&& strictly_sorted(views(q.local_addresses@))
    &&& views(q.local_addresses@).to_set() == pid_addresses(prs, q.pid)
}

/// The state of the per-process pass: one group per process seen, with its container.
pub open spec fn builders_match(
    procs: Seq<ListenerProcessGroup>,
    conts: Seq<Option<String>>,
    prs: Seq<(SampleView, ProcessView)>,
) -> bool {
    &&& procs.len() == conts.len()
    &&& forall|k: int| 0 <= k < procs.len() ==> group_describes(#[trigger] procs[k], opt_view(conts[k]), prs)
    &&& forall|k1: int, k2: int|
        0 <= k1 < procs.len() && 0 <= k2 < procs.len() && k1 != k2 ==> (#[trigger] procs[k1]).pid
            != (#[trigger] procs[k2]).pid
    &&& forall|i: int| 0 <= i < prs.len() ==> exists|k: int| 0 <= k < procs.len() && (#[trigger] procs[k]).pid == (#[trigger] prs[i]).1.pid
    &&& forall|k: int| 0 <= k < procs.len() ==> #[trigger] procs[k].socket_count <= prs.len()
}

proof fn lemma_pair_step(prs: Seq<(SampleView, ProcessView)>, x: (SampleView, ProcessView), pid: i32)
    ensures
        pid_count(prs.push(x), pid) == pid_count(prs, pid) + if x.1.pid == pid { 1nat } else { 0nat },
        pid_protocols(prs.push(x), pid) == if x.1.pid == pid {
            pid_protocols(prs, pid).insert(x.0.protocol)
        } else {
            pid_protocols(prs, pid)
        },
        pid_addresses(prs.push(x), pid) == if x.1.pid == pid {
            pid_addresses(prs, pid).insert(x.0.local_address)
        } else {
            pid_addresses(prs, pid)
        },
        first_info(prs.push(x), pid) == match first_info(prs, pid) {
            Some(y) => Some(y),
            None => if x.1.pid == pid { Some(x.1) } else { None },
        },
{
    assert(prs.push(x).drop_last() == prs);
}

proof fn lemma_first_info_none(prs: Seq<(SampleView, ProcessView)>, pid: i32)
    requires
        first_info(prs, pid) is None,
    ensures
        pid_count(prs, pid) == 0,
        pid_protocols(prs, pid) == Set::<Seq<char>>::empty(),
        pid_addresses(prs, pid) == Set::<Seq<char>>::empty(),
        forall|i: int| 0 <= i < prs.len() ==> (#[trigger] prs[i]).1.pid != pid,
    decreases prs.len(),
{
    if prs.len() > 0 {
        lemma_first_info_none(prs.drop_last(), pid);
        assert forall|i: int| 0 <= i < prs.len() implies (#[trigger] prs[i]).1.pid != pid by {
            if i < prs.len() - 1 {
                assert(prs[i] == prs.drop_last()[i]);
            }
        }
    }
}

/// Records one (sample, process) pair in the per-process pass.
fn add_pair(
    procs: &mut Vec<ListenerProcessGroup>,
    conts: &mut Vec<Option<String>>,
    sample: &SocketSample,
    process: &SocketProcessInfo,
    Ghost(prs): Ghost<Seq<(SampleView, ProcessView)>>,
)
    requires
        builders_match(old(procs)@, old(conts)@, prs),
        prs.len() < usize::MAX,
    ensures
        builders_match(final(procs)@, final(conts)@, prs.push((sample@, process@))),
        count_sum(final(procs)@) == count_sum(old(procs)@) + 1,
{
    let ghost x = (sample@, process@);
    let ghost prs2 = prs.push(x);
    let n = procs.len();
    let mut k: usize = 0;
    while k < n && procs[k].pid != process.pid
        invariant
            n == procs@.len(),
            procs@ == old(procs)@,
            k <= n,
            forall|j: int| 0 <= j < k ==> procs@[j].pid != process.pid,
        decreases n - k,
    {
        k = k + 1;
    }
    if k == n {
        // A process seen for the first time.
        proof {
            assert forall|i: int| 0 <= i < prs.len() implies (#[trigger] prs[i]).1.pid != process.pid by {
                let j = choose|j: int| 0 <= j < procs@.len() && (#[trigger] procs@[j]).pid == prs[i].1.pid;
            }
            if first_info(prs, process.pid) is Some {
                lemma_first_info_some(prs, process.pid);
            }
            lemma_first_info_none(prs, process.pid);
        }
        let q = ListenerProcessGroup {
            pid: process.pid,
            command: owned(process.command.as_str()),
            uid: process.uid,
            socket_count: 0,
            protocols: Vec::new(),
            local_addresses: Vec::new(),
        };
        let ghost before = procs@;
        procs.push(q);
        conts.push(copy_opt(&process.container));
        assert(procs@.drop_last() == before);
        assert(views(procs@[k as int].protocols@).to_set() =~= Set::<Seq<char>>::empty());
        assert(views(procs@[k as int].local_addresses@).to_set() =~= Set::<Seq<char>>::empty());
    }
    let ghost mid_procs = procs@;
    let ghost mid_conts = conts@;
    let mut q = procs.remove(k);
    proof {
        lemma_pair_step(prs, x, q.pid);
    }
    q.socket_count = q.socket_count + 1;
    insert_sorted(&mut q.protocols, &sample.protocol);
    insert_sorted(&mut q.local_addresses, &sample.local_address);
    procs.insert(k, q);
    assert(procs@ == mid_procs.update(k as int, q));
    proof {
        lemma_count_sum_update(mid_procs, k as int, q);
    }
    assert forall|j: int| 0 <= j < procs@.len() implies group_describes(
        #[trigger] procs@[j],
        opt_view(conts@[j]),
        prs2,
    ) by {
        lemma_pair_step(prs, x, procs@[j].pid);
        if j != k {
            assert(procs@[j] == mid_procs[j]);
            if k < n {
                assert(procs@[j] == old(procs)@[j]);
            } else if j < n {
                assert(procs@[j] == old(procs)@[j]);
            }
        }
    }
    assert forall|i: int| 0 <= i < prs2.len() implies exists|j: int| 0 <= j < procs@.len() && (#[trigger] procs@[j]).pid == (#[trigger] prs2[i]).1.pid by {
        if i < prs.len() {
            assert(prs2[i] == prs[i]);
            let j = choose|j: int| 0 <= j < old(procs)@.len() && (#[trigger] old(procs)@[j]).pid == prs[i].1.pid;
            assert(procs@[j].pid == old(procs)@[j].pid);
        } else {
            assert(procs@[k as int].pid == process.pid);
        }
    }
    assert forall|j: int| 0 <= j < procs@.len() implies #[trigger] procs@[j].socket_count <= prs2.len() by {
        if j != k && j < old(procs)@.len() {
            assert(procs@[j] == old(procs)@[j]);
        }
    }
}

proof fn lemma_first_info_some(prs: Seq<(SampleView, ProcessView)>, pid: i32)
    requires
        first_info(prs, pid) is Some,
    ensures
        exists|i: int| 0 <= i < prs.len() && (#[trigger] prs[i]).1.pid == pid,
    decreases prs.len(),
{
    if first_info(prs.drop_last(), pid) is Some {
        lemma_first_info_some(prs.drop_last(), pid);
        let i = choose|i: int| 0 <= i < prs.drop_last().len() && (#[trigger] prs.drop_last()[i]).1.pid == pid;
        assert(prs[i] == prs.drop_last()[i]);
    } else {
        assert(prs[prs.len() - 1].1.pid == pid);
    }
}


/// The total socket count of a list of process groups.
pub open spec fn count_sum(ps: Seq<ListenerProcessGroup>) -> int
    decreases ps.len(),
{
    if ps.len() == 0 {
        0
    } else {
        count_sum(ps.drop_last()) + ps.last().socket_count
    }
}

proof fn lemma_count_sum_remove(ps: Seq<ListenerProcessGroup>, k: int)
    requires
        0 <= k < ps.len(),
    ensures
        count_sum(ps.remove(k)) == count_sum(ps) - ps[k].socket_count,
    decreases ps.len(),
{
    if k < ps.len() - 1 {
        lemma_count_sum_remove(ps.drop_last(), k);
        assert(ps.remove(k).drop_last() == ps.drop_last().remove(k));
        assert(ps.remove(k).last() == ps.last());
    } else {
        assert(ps.remove(k) == ps.drop_last());
    }
}

proof fn lemma_count_sum_update(ps: Seq<ListenerProcessGroup>, k: int, q: ListenerProcessGroup)
    requires
        0 <= k < ps.len(),
    ensures
        count_sum(ps.update(k, q)) == count_sum(ps) - ps[k].socket_count + q.socket_count,
{
    lemma_count_sum_remove(ps, k);
    lemma_count_sum_remove(ps.update(k, q), k);
    assert(ps.update(k, q).remove(k) == ps.remove(k));
}

proof fn lemma_count_sum_nonneg(ps: Seq<ListenerProcessGroup>)
    ensures
        count_sum(ps) >= 0,
        forall|k: int| 0 <= k < ps.len() ==> (#[trigger] ps[k]).socket_count <= count_sum(ps),
    decreases ps.len(),
{
    if ps.len() > 0 {
        lemma_count_sum_nonneg(ps.drop_last());
        assert forall|k: int| 0 <= k < ps.len() implies (#[trigger] ps[k]).socket_count <= count_sum(ps) by {
            if k < ps.len() - 1 {
                assert(ps[k] == ps.drop_last()[k]);
            }
        }
    }
}

proof fn lemma_pairs_prefix(ss: Seq<SampleView>, i: int)
    requires
        0 <= i < ss.len(),
    ensures
        pairs_of(ss.subrange(0, i + 1)) == pairs_of(ss.subrange(0, i)) + sample_pairs(ss[i]),
        pairs_of(ss.subrange(0, i + 1)).len() <= pairs_of(ss).len(),
    decreases ss.len() - i,
{
    assert(ss.subrange(0, i + 1).drop_last() == ss.subrange(0, i));
    if i + 1 < ss.len() {
        lemma_pairs_prefix(ss, i + 1);
    } else {
        assert(ss.subrange(0, i + 1) == ss);
    }
}

/// The per-process pass over every (sample, process) pair.
fn process_groups(samples: &[SocketSample]) -> (r: (Vec<ListenerProcessGroup>, Vec<Option<String>>))
    requires
        pairs_of(sviews(samples@)).len() < usize::MAX,
    ensures
        builders_match(r.0@, r.1@, pairs_of(sviews(samples@))),
        count_sum(r.0@) == pairs_of(sviews(samples@)).len(),
{
    let ghost ss = sviews(samples@);
    let mut procs: Vec<ListenerProcessGroup> = Vec::new();
    let mut conts: Vec<Option<String>> = Vec::new();
    let mut i: usize = 0;
    assert(pairs_of(ss.subrange(0, 0)) =~= Seq::empty());
    while i < samples.len()
        invariant
            ss == sviews(samples@),
            i <= samples@.len(),
            pairs_of(ss).len() < usize::MAX,
            builders_match(procs@, conts@, pairs_of(ss.subrange(0, i as int))),
            count_sum(procs@) == pairs_of(ss.subrange(0, i as int)).len(),
            pairs_of(ss.subrange(0, i as int)).len() <= pairs_of(ss).len(),
        decreases samples@.len() - i,
    {
        let sample = &samples[i];
        let ghost base = pairs_of(ss.subrange(0, i as int));
        proof {
            lemma_pairs_prefix(ss, i as int);
        }
        let ps = &sample.processes;
        let mut j: usize = 0;
        assert(base + sample_pairs(sample@).subrange(0, 0) == base);
        while j < ps.len()
            invariant
                ss == sviews(samples@),
                i < samples@.len(),
                sample == &samples@[i as int],
                ps == &sample.processes,
                j <= ps@.len(),
                base == pairs_of(ss.subrange(0, i as int)),
                pairs_of(ss.subrange(0, i + 1)) == base + sample_pairs(ss[i as int]),
                pairs_of(ss.subrange(0, i + 1)).len() <= pairs_of(ss).len(),
                pairs_of(ss).len() < usize::MAX,
                builders_match(procs@, conts@, base + sample_pairs(sample@).subrange(0, j as int)),
                count_sum(procs@) == base.len() + j,
            decreases ps@.len() - j,
        {
            let ghost prs = base + sample_pairs(sample@).subrange(0, j as int);
            assert(ss[i as int] == sample@);
            assert(sample_pairs(sample@).len() == ps@.len());
            assert(sample_pairs(sample@)[j as int] == (sample@, ps@[j as int]@));
            assert(prs.push((sample@, ps@[j as int]@)) == base + sample_pairs(sample@).subrange(0, j + 1));
            let ghost before = procs@;
            let n0 = procs.len();
            add_pair(&mut procs, &mut conts, sample, &ps[j], Ghost(prs));
            j = j + 1;
        }
        assert(sample_pairs(sample@).subrange(0, ps@.len() as int) == sample_pairs(sample@));
        assert(ss[i as int] == sample@);
        i = i + 1;
    }
    assert(ss.subrange(0, samples@.len() as int) == ss);
    (procs, conts)
}


/// Neighbouring process groups are in descending order of socket count.
pub open spec fn desc_processes(ps: Seq<ListenerProcessGroup>) -> bool {
    forall|b: int| 0 <= b < ps.len() - 1 ==> (#[trigger] ps[b]).socket_count >= ps[b + 1].socket_count
}

/// The pids of a list of process groups.
pub open spec fn pids_of(ps: Seq<ListenerProcessGroup>) -> Set<i32> {
    pid_seq(ps).to_set()
}

/// The pid of each process group, in order.
pub open spec fn pid_seq(ps: Seq<ListenerProcessGroup>) -> Seq<i32> {
    ps.map_values(|q: ListenerProcessGroup| q.pid)
}

/// Pairwise different pids.
pub open spec fn distinct_pids(ps: Seq<ListenerProcessGroup>) -> bool {
    forall|b1: int, b2: int|
        0 <= b1 < ps.len() && 0 <= b2 < ps.len() && b1 != b2 ==> (#[trigger] ps[b1]).pid != (#[trigger] ps[b2]).pid
}

/// A container group: its counts agree with its processes, which are sorted, distinct, and
/// each describe their process among the pairs under this container.
#[verifier::opaque]
pub open spec fn container_group_ok(g: ListenerContainerGroup, prs: Seq<(SampleView, ProcessView)>) -> bool {
    &&& g.socket_count == count_sum(g.processes@)
    &&& g.process_count == g.processes@.len()
    &&& g.processes@.len() > 0
    &&& desc_processes(g.processes@)
    &&& distinct_pids(g.processes@)
    &&& forall|b: int| 0 <= b < g.processes@.len() ==> group_describes(#[trigger] g.processes@[b], opt_view(g.container), prs)
}

/// The pids of a whole list of container groups.
pub open spec fn group_pids(gs: Seq<ListenerContainerGroup>) -> Set<i32>
    decreases gs.len(),
{
    if gs.len() == 0 {
        Set::empty()
    } else {
        group_pids(gs.drop_last()).union(pids_of(gs.last().processes@))
    }
}

/// The total socket count of a list of container groups.
pub open spec fn group_sum(gs: Seq<ListenerContainerGroup>) -> int
    decreases gs.len(),
{
    if gs.len() == 0 {
        0
    } else {
        group_sum(gs.drop_last()) + gs.last().socket_count
    }
}

/// Among `procs`, the one with the most sockets whose container is `c`.
fn find_max_in(procs: &Vec<ListenerProcessGroup>, conts: &Vec<Option<String>>, c: &Option<String>) -> (r: Option<usize>)
    requires
        procs@.len() == conts@.len(),
    ensures
        match r {
            Some(i) => i < procs@.len() && opt_view(conts@[i as int]) == opt_view(*c)
                && forall|k: int| 0 <= k < procs@.len() && opt_view(conts@[k]) == opt_view(*c)
                ==> (#[trigger] procs@[k]).socket_count <= procs@[i as int].socket_count,
            None => forall|k: int| 0 <= k < procs@.len() ==> opt_view(#[trigger] conts@[k]) != opt_view(*c),
        },
{
    let mut best: Option<usize> = None;
    let mut k: usize = 0;
    while k < procs.len()
        invariant
            procs@.len() == conts@.len(),
            k <= procs@.len(),
            match best {
                Some(i) => i < k && opt_view(conts@[i as int]) == opt_view(*c)
                    && forall|j: int| 0 <= j < k && opt_view(conts@[j]) == opt_view(*c)
                    ==> (#[trigger] procs@[j]).socket_count <= procs@[i as int].socket_count,
                None => forall|j: int| 0 <= j < k ==> opt_view(#[trigger] conts@[j]) != opt_view(*c),
            },
        decreases procs@.len() - k,
    {
        if same_container(&conts[k], c) {
            match best {
                Some(i) => {
                    if procs[k].socket_count > procs[i].socket_count {
                        best = Some(k);
                    }
                },
                None => {
                    best = Some(k);
                },
            }
        }
        k = k + 1;
    }
    best
}

/// Whether two optional container ids are the same.
fn same_container(a: &Option<String>, b: &Option<String>) -> (r: bool)
    ensures
        r == (opt_view(*a) == opt_view(*b)),
{
    match (a, b) {
        (Some(x), Some(y)) => str_eq(x.as_str(), y.as_str()),
        (None, None) => true,
        _ => false,
    }
}

/// Moves the process groups of container `c` out of `procs`, most sockets first.
fn take_container(
    procs: &mut Vec<ListenerProcessGroup>,
    conts: &mut Vec<Option<String>>,
    c: &Option<String>,
    Ghost(prs): Ghost<Seq<(SampleView, ProcessView)>>,
) -> (out: Vec<ListenerProcessGroup>)
    requires
        old(procs)@.len() == old(conts)@.len(),
        distinct_pids(old(procs)@),
        forall|k: int| 0 <= k < old(procs)@.len() ==> group_describes(#[trigger] old(procs)@[k], opt_view(old(conts)@[k]), prs),
    ensures
        final(procs)@.len() == final(conts)@.len(),
        distinct_pids(final(procs)@),
        forall|k: int| 0 <= k < final(procs)@.len() ==> group_describes(#[trigger] final(procs)@[k], opt_view(final(conts)@[k]), prs),
        forall|k: int| 0 <= k < final(procs)@.len() ==> opt_view(#[trigger] final(conts)@[k]) != opt_view(*c),
        forall|k: int| 0 <= k < final(conts)@.len() ==> exists|j: int| 0 <= j < old(conts)@.len() && opt_view(#[trigger] final(conts)@[k]) == opt_view(old(conts)@[j]),
        pids_of(final(procs)@).union(pids_of(out@)) == pids_of(old(procs)@),
        pids_of(final(procs)@).disjoint(pids_of(out@)),
        count_sum(final(procs)@) + count_sum(out@) == count_sum(old(procs)@),
        desc_processes(out@),
        distinct_pids(out@),
        forall|b: int| 0 <= b < out@.len() ==> group_describes(#[trigger] out@[b], opt_view(*c), prs),
        final(procs)@.len() + out@.len() == old(procs)@.len(),
        (exists|k: int| 0 <= k < old(conts)@.len() && opt_view(#[trigger] old(conts)@[k]) == opt_view(*c))
            ==> out@.len() > 0,
{
    let mut out: Vec<ListenerProcessGroup> = Vec::new();
    assert(pids_of(procs@).union(pids_of(out@)) =~= pids_of(procs@));
    loop
        invariant
            procs@.len() == conts@.len(),
            distinct_pids(procs@),
            forall|k: int| 0 <= k < procs@.len() ==> group_describes(#[trigger] procs@[k], opt_view(conts@[k]), prs),
            forall|k: int| 0 <= k < conts@.len() ==> exists|j: int| 0 <= j < old(conts)@.len() && opt_view(#[trigger] conts@[k]) == opt_view(old(conts)@[j]),
            pids_of(procs@).union(pids_of(out@)) == pids_of(old(procs)@),
            pids_of(procs@).disjoint(pids_of(out@)),
            count_sum(procs@) + count_sum(out@) == count_sum(old(procs)@),
            desc_processes(out@),
            distinct_pids(out@),
            forall|b: int| 0 <= b < out@.len() ==> group_describes(#[trigger] out@[b], opt_view(*c), prs),
            forall|b: int, k: int| 0 <= b < out@.len() && 0 <= k < procs@.len() && opt_view(conts@[k]) == opt_view(*c)
                ==> (#[trigger] out@[b]).socket_count >= (#[trigger] procs@[k]).socket_count,
            procs@.len() + out@.len() == old(procs)@.len(),
            out@.len() == 0 ==> conts@ == old(conts)@,
        ensures
            procs@.len() == conts@.len(),
            forall|k: int| 0 <= k < procs@.len() ==> opt_view(#[trigger] conts@[k]) != opt_view(*c),
        decreases procs@.len(),
    {
        match find_max_in(procs, conts, c) {
            None => break,
            Some(i) => {
                let ghost p0 = procs@;
                let ghost c0 = conts@;
                let ghost o0 = out@;
                let q = procs.remove(i);
                let _ = conts.remove(i);
                proof {
                    lemma_count_sum_remove(p0, i as int);
                    assert(p0[i as int] == q);
                    assert forall|k: int| 0 <= k < procs@.len() implies group_describes(#[trigger] procs@[k], opt_view(conts@[k]), prs) by {
                        if k < i { assert(procs@[k] == p0[k] && conts@[k] == c0[k]); }
                        else { assert(procs@[k] == p0[k + 1] && conts@[k] == c0[k + 1]); }
                    }
                    assert forall|k: int| 0 <= k < conts@.len() implies exists|j: int| 0 <= j < old(conts)@.len() && opt_view(#[trigger] conts@[k]) == opt_view(old(conts)@[j]) by {
                        if k < i { assert(conts@[k] == c0[k]); } else { assert(conts@[k] == c0[k + 1]); }
                    }
                }
                out.push(q);
                proof {
                    assert(out@.drop_last() == o0);
                    assert(p0 =~= procs@.insert(i as int, q));
                    lemma_pids_move(procs@, o0, q, i as int);
                    assert forall|b: int, k: int| 0 <= b < out@.len() && 0 <= k < procs@.len() && opt_view(conts@[k]) == opt_view(*c)
                        implies (#[trigger] out@[b]).socket_count >= (#[trigger] procs@[k]).socket_count by {
                        let kk = if k < i { k } else { k + 1 };
                        assert(procs@[k] == p0[kk] && conts@[k] == c0[kk]);
                        if b < o0.len() { assert(out@[b] == o0[b]); }
                    }
                    assert forall|b: int| 0 <= b < out@.len() - 1 implies (#[trigger] out@[b]).socket_count >= out@[b + 1].socket_count by {
                        assert(out@[b] == o0[b]);
                        if b + 1 < o0.len() { assert(out@[b + 1] == o0[b + 1]); }
                    }
                    assert forall|b: int| 0 <= b < out@.len() implies group_describes(#[trigger] out@[b], opt_view(*c), prs) by {
                        if b < o0.len() { assert(out@[b] == o0[b]); }
                    }
                }
            },
        }
    }
    out
}

/// Moving element `q` (at index `i`) from `rest.insert(i, q)` to the end of `out` keeps the
/// pid sets apart and the pids distinct.
proof fn lemma_pids_move(rest: Seq<ListenerProcessGroup>, out: Seq<ListenerProcessGroup>, q: ListenerProcessGroup, i: int)
    requires
        0 <= i <= rest.len(),
        distinct_pids(rest.insert(i, q)),
        distinct_pids(out),
        pids_of(rest.insert(i, q)).disjoint(pids_of(out)),
    ensures
        distinct_pids(rest),
        distinct_pids(out.push(q)),
        pids_of(rest).disjoint(pids_of(out.push(q))),
        pids_of(rest).union(pids_of(out.push(q))) == pids_of(rest.insert(i, q)).union(pids_of(out)),
{
    let full = rest.insert(i, q);
    assert forall|b1: int, b2: int| 0 <= b1 < rest.len() && 0 <= b2 < rest.len() && b1 != b2 implies (#[trigger] rest[b1]).pid != (#[trigger] rest[b2]).pid by {
        let f1 = if b1 < i { b1 } else { b1 + 1 };
        let f2 = if b2 < i { b2 } else { b2 + 1 };
        assert(full[f1] == rest[b1] && full[f2] == rest[b2]);
    }
    let o2 = out.push(q);
    assert(full[i] == q);
    assert(pids_of(full).contains(q.pid)) by {
        assert(pid_seq(full)[i] == q.pid);
    }
    assert forall|b1: int, b2: int| 0 <= b1 < o2.len() && 0 <= b2 < o2.len() && b1 != b2 implies (#[trigger] o2[b1]).pid != (#[trigger] o2[b2]).pid by {
        if b1 < out.len() && b2 < out.len() {
            assert(o2[b1] == out[b1] && o2[b2] == out[b2]);
        } else if b1 < out.len() {
            assert(o2[b1] == out[b1]);
            assert(pids_of(out).contains(out[b1].pid)) by {
                assert(pid_seq(out)[b1] == out[b1].pid);
            }
        } else if b2 < out.len() {
            assert(o2[b2] == out[b2]);
            assert(pids_of(out).contains(out[b2].pid)) by {
                assert(pid_seq(out)[b2] == out[b2].pid);
            }
        }
    }
    assert forall|p: i32| pids_of(rest).contains(p) implies !pids_of(o2).contains(p) by {
        let b = choose|b: int| 0 <= b < rest.len() && #[trigger] pid_seq(rest)[b] == p;
        let f = if b < i { b } else { b + 1 };
        assert(full[f] == rest[b]);
        assert(pid_seq(full)[f] == p);
        assert(pid_seq(full).contains(p));
        assert(pids_of(full).contains(p));
        if pids_of(o2).contains(p) {
            let c = choose|c: int| 0 <= c < o2.len() && #[trigger] pid_seq(o2)[c] == p;
            if c < out.len() {
                assert(o2[c] == out[c]);
                assert(pid_seq(out)[c] == p);
                assert(pid_seq(out).contains(p));
                assert(pids_of(out).contains(p));
            } else {
                assert(f != i);
                assert(full[f].pid != full[i].pid);
            }
        }
    }
    assert forall|p: i32| pids_of(rest).union(pids_of(o2)).contains(p) == pids_of(full).union(pids_of(out)).contains(p) by {
        if pids_of(rest).contains(p) {
            let b = choose|b: int| 0 <= b < rest.len() && #[trigger] pid_seq(rest)[b] == p;
            let f = if b < i { b } else { b + 1 };
            assert(full[f] == rest[b]);
            assert(pid_seq(full)[f] == p);
        }
        if pids_of(o2).contains(p) {
            let c = choose|c: int| 0 <= c < o2.len() && #[trigger] pid_seq(o2)[c] == p;
            if c < out.len() {
                assert(o2[c] == out[c]);
                assert(pid_seq(out)[c] == p);
            }
        }
        if pids_of(full).contains(p) {
            let f = choose|f: int| 0 <= f < full.len() && #[trigger] pid_seq(full)[f] == p;
            if f < i {
                assert(rest[f] == full[f]);
                assert(pid_seq(rest)[f] == p);
            } else if f > i {
                assert(rest[f - 1] == full[f]);
                assert(pid_seq(rest)[f - 1] == p);
            } else {
                assert(pid_seq(o2)[out.len() as int] == p);
            }
        }
        if pids_of(out).contains(p) {
            let c = choose|c: int| 0 <= c < out.len() && #[trigger] pid_seq(out)[c] == p;
            assert(o2[c] == out[c]);
            assert(pid_seq(o2)[c] == p);
        }
    }
    assert(pids_of(rest).union(pids_of(o2)) =~= pids_of(full).union(pids_of(out)));
    assert(pids_of(rest).disjoint(pids_of(o2)));
}


proof fn lemma_group_sum_remove(gs: Seq<ListenerContainerGroup>, k: int)
    requires
        0 <= k < gs.len(),
    ensures
        group_sum(gs.remove(k)) == group_sum(gs) - gs[k].socket_count,
    decreases gs.len(),
{
    if k < gs.len() - 1 {
        lemma_group_sum_remove(gs.drop_last(), k);
        assert(gs.remove(k).drop_last() == gs.drop_last().remove(k));
        assert(gs.remove(k).last() == gs.last());
    } else {
        assert(gs.remove(k) == gs.drop_last());
    }
}

proof fn lemma_count_sum_prefix(ps: Seq<ListenerProcessGroup>, b: int)
    requires
        0 <= b <= ps.len(),
    ensures
        count_sum(ps.subrange(0, b)) <= count_sum(ps),
    decreases ps.len() - b,
{
    if b < ps.len() {
        lemma_count_sum_prefix(ps, b + 1);
        assert(ps.subrange(0, b + 1).drop_last() == ps.subrange(0, b));
    } else {
        assert(ps.subrange(0, b) == ps);
    }
}

/// The container groups sorted by descending socket count, each well formed, with distinct
/// containers and disjoint processes.
pub open spec fn groups_ok(gs: Seq<ListenerContainerGroup>, prs: Seq<(SampleView, ProcessView)>) -> bool {
    &&& forall|a: int| 0 <= a < gs.len() ==> container_group_ok(#[trigger] gs[a], prs)
    &&& forall|a1: int, a2: int| 0 <= a1 < gs.len() && 0 <= a2 < gs.len() && a1 != a2
        ==> opt_view((#[trigger] gs[a1]).container) != opt_view((#[trigger] gs[a2]).container)
    &&& forall|a1: int, a2: int| 0 <= a1 < gs.len() && 0 <= a2 < gs.len() && a1 != a2
        ==> pids_of((#[trigger] gs[a1]).processes@).disjoint(pids_of((#[trigger] gs[a2]).processes@))
    &&& forall|a: int| 0 <= a < gs.len() - 1 ==> (#[trigger] gs[a]).socket_count >= gs[a + 1].socket_count
}

/// The state of the roll-up: groups built so far, processes still to place.
#[verifier::opaque]
pub open spec fn rollup_inv(
    procs: Seq<ListenerProcessGroup>,
    conts: Seq<Option<String>>,
    built: Seq<ListenerContainerGroup>,
    prs: Seq<(SampleView, ProcessView)>,
) -> bool {
    &&& procs.len() == conts.len()
    &&& distinct_pids(procs)
    &&& forall|k: int| 0 <= k < procs.len() ==> group_describes(#[trigger] procs[k], opt_view(conts[k]), prs)
    &&& groups_ok(built, prs)
    &&& forall|a: int, k: int| 0 <= a < built.len() && 0 <= k < conts.len()
        ==> opt_view((#[trigger] built[a]).container) != opt_view(#[trigger] conts[k])
    &&& forall|a: int| 0 <= a < built.len() ==> pids_of((#[trigger] built[a]).processes@).disjoint(pids_of(procs))
    &&& group_sum(built) + count_sum(procs) == prs.len()
    &&& prs.len() < usize::MAX
}

proof fn lemma_group_sum_nonneg(gs: Seq<ListenerContainerGroup>)
    ensures
        group_sum(gs) >= 0,
    decreases gs.len(),
{
    if gs.len() > 0 {
        lemma_group_sum_nonneg(gs.drop_last());
    }
}

/// Moves the processes of one container into a new group, kept in descending order.
#[verifier::rlimit(100)]
fn rollup_step(
    procs: &mut Vec<ListenerProcessGroup>,
    conts: &mut Vec<Option<String>>,
    built: &mut Vec<ListenerContainerGroup>,
    Ghost(prs): Ghost<Seq<(SampleView, ProcessView)>>,
)
    requires
        rollup_inv(old(procs)@, old(conts)@, old(built)@, prs),
        old(procs)@.len() > 0,
    ensures
        rollup_inv(final(procs)@, final(conts)@, final(built)@, prs),
        final(procs)@.len() < old(procs)@.len(),
{
    reveal(rollup_inv);
    let last = procs.len() - 1;
    let c = copy_opt(&conts[last]);
    let ghost p0 = procs@;
    let ghost c0 = conts@;
    assert(opt_view(c0[last as int]) == opt_view(c));
    let members = take_container(procs, conts, &c, Ghost(prs));
    proof {
        assert(opt_view(c0[last as int]) == opt_view(c));
        lemma_count_sum_nonneg(procs@);
        lemma_group_sum_nonneg(built@);
        assert(members@.len() > 0);
        assert(count_sum(members@) < usize::MAX);
        assert(pids_of(members@).subset_of(pids_of(p0)));
        assert(pids_of(procs@).subset_of(pids_of(p0)));
    }
    let g = make_group(members, c, Ghost(prs));
    // Insert after every group with at least as many sockets.
    let mut k: usize = 0;
    while k < built.len() && built[k].socket_count >= g.socket_count
        invariant
            k <= built@.len(),
            forall|a: int| 0 <= a < k ==> (#[trigger] built@[a]).socket_count >= g.socket_count,
        decreases built@.len() - k,
    {
        k = k + 1;
    }
    let ghost b0 = built@;
    built.insert(k, g);
    proof {
        assert(built@ =~= b0.insert(k as int, g));
        assert(built@.remove(k as int) =~= b0);
        lemma_group_sum_remove(built@, k as int);
        assert(built@[k as int] == g);
        lemma_insert_keeps_groups_ok(b0, g, k as int, prs, p0, c0);
        lemma_insert_keeps_apart(b0, g, k as int, p0, c0, procs@, conts@);
    }
}

/// Rolls the process groups up by container, in descending order of socket count.
fn group_by_container(
    procs: Vec<ListenerProcessGroup>,
    conts: Vec<Option<String>>,
    Ghost(prs): Ghost<Seq<(SampleView, ProcessView)>>,
) -> (r: Vec<ListenerContainerGroup>)
    requires
        builders_match(procs@, conts@, prs),
        count_sum(procs@) == prs.len(),
        prs.len() < usize::MAX,
    ensures
        groups_ok(r@, prs),
        group_sum(r@) == prs.len(),
{
    let mut procs = procs;
    let mut conts = conts;
    let mut built: Vec<ListenerContainerGroup> = Vec::new();
    proof {
        reveal(rollup_inv);
    }
    while procs.len() > 0
        invariant
            rollup_inv(procs@, conts@, built@, prs),
        decreases procs@.len(),
    {
        rollup_step(&mut procs, &mut conts, &mut built, Ghost(prs));
    }
    proof {
        reveal(rollup_inv);
    }
    built
}

proof fn lemma_insert_keeps_groups_ok(
    b0: Seq<ListenerContainerGroup>,
    g: ListenerContainerGroup,
    k: int,
    prs: Seq<(SampleView, ProcessView)>,
    p0: Seq<ListenerProcessGroup>,
    c0: Seq<Option<String>>,
)
    requires
        0 <= k <= b0.len(),
        groups_ok(b0, prs),
        container_group_ok(g, prs),
        forall|a: int| 0 <= a < k ==> (#[trigger] b0[a]).socket_count >= g.socket_count,
        k < b0.len() ==> b0[k].socket_count < g.socket_count,
        forall|a: int, j: int| 0 <= a < b0.len() && 0 <= j < c0.len()
            ==> opt_view((#[trigger] b0[a]).container) != opt_view(#[trigger] c0[j]),
        exists|j: int| 0 <= j < c0.len() && opt_view(#[trigger] c0[j]) == opt_view(g.container),
        forall|a: int| 0 <= a < b0.len() ==> pids_of((#[trigger] b0[a]).processes@).disjoint(pids_of(p0)),
        pids_of(g.processes@).subset_of(pids_of(p0)),
    ensures
        groups_ok(b0.insert(k, g), prs),
{
    let gs = b0.insert(k, g);
    let jg = choose|j: int| 0 <= j < c0.len() && opt_view(#[trigger] c0[j]) == opt_view(g.container);
    assert forall|a: int| 0 <= a < gs.len() implies container_group_ok(#[trigger] gs[a], prs) by {
        if a < k { assert(gs[a] == b0[a]); } else if a > k { assert(gs[a] == b0[a - 1]); }
    }
    assert forall|a1: int, a2: int| 0 <= a1 < gs.len() && 0 <= a2 < gs.len() && a1 != a2
        implies opt_view((#[trigger] gs[a1]).container) != opt_view((#[trigger] gs[a2]).container) by {
        let o1 = if a1 < k { a1 } else { a1 - 1 };
        let o2 = if a2 < k { a2 } else { a2 - 1 };
        if a1 == k {
            assert(gs[a2] == b0[o2]);
            assert(opt_view(b0[o2].container) != opt_view(c0[jg]));
        } else if a2 == k {
            assert(gs[a1] == b0[o1]);
            assert(opt_view(b0[o1].container) != opt_view(c0[jg]));
        } else {
            assert(gs[a1] == b0[o1] && gs[a2] == b0[o2]);
        }
    }
    lemma_insert_keeps_disjoint(b0, g, k, prs, p0);
    assert forall|a: int| 0 <= a < gs.len() - 1 implies (#[trigger] gs[a]).socket_count >= gs[a + 1].socket_count by {
        if a < k - 1 { assert(gs[a] == b0[a] && gs[a + 1] == b0[a + 1]); }
        else if a == k - 1 { assert(gs[a] == b0[a]); }
        else if a == k { assert(gs[a + 1] == b0[a]); }
        else { assert(gs[a] == b0[a - 1] && gs[a + 1] == b0[a]); }
    }
}

proof fn lemma_disjoint_subset(a: Set<i32>, b: Set<i32>, c: Set<i32>)
    requires
        a.disjoint(c),
        b.subset_of(c),
    ensures
        a.disjoint(b),
        b.disjoint(a),
{
    assert forall|x: i32| a.contains(x) implies !b.contains(x) by {}
}

proof fn lemma_insert_keeps_disjoint(
    b0: Seq<ListenerContainerGroup>,
    g: ListenerContainerGroup,
    k: int,
    prs: Seq<(SampleView, ProcessView)>,
    p0: Seq<ListenerProcessGroup>,
)
    requires
        0 <= k <= b0.len(),
        groups_ok(b0, prs),
        forall|a: int| 0 <= a < b0.len() ==> pids_of((#[trigger] b0[a]).processes@).disjoint(pids_of(p0)),
        pids_of(g.processes@).subset_of(pids_of(p0)),
    ensures
        forall|a1: int, a2: int| 0 <= a1 < b0.len() + 1 && 0 <= a2 < b0.len() + 1 && a1 != a2
            ==> pids_of((#[trigger] b0.insert(k, g)[a1]).processes@).disjoint(pids_of((#[trigger] b0.insert(k, g)[a2]).processes@)),
{
    let gs = b0.insert(k, g);
    assert forall|a1: int, a2: int| 0 <= a1 < gs.len() && 0 <= a2 < gs.len() && a1 != a2
        implies pids_of((#[trigger] gs[a1]).processes@).disjoint(pids_of((#[trigger] gs[a2]).processes@)) by {
        let o1 = if a1 < k { a1 } else { a1 - 1 };
        let o2 = if a2 < k { a2 } else { a2 - 1 };
        if a1 == k {
            assert(gs[a2] == b0[o2]);
            lemma_disjoint_subset(pids_of(b0[o2].processes@), pids_of(g.processes@), pids_of(p0));
        } else if a2 == k {
            assert(gs[a1] == b0[o1]);
            lemma_disjoint_subset(pids_of(b0[o1].processes@), pids_of(g.processes@), pids_of(p0));
        } else {
            assert(gs[a1] == b0[o1] && gs[a2] == b0[o2]);
        }
    }
}

proof fn lemma_insert_keeps_apart(
    b0: Seq<ListenerContainerGroup>,
    g: ListenerContainerGroup,
    k: int,
    p0: Seq<ListenerProcessGroup>,
    c0: Seq<Option<String>>,
    p1: Seq<ListenerProcessGroup>,
    c1: Seq<Option<String>>,
)
    requires
        0 <= k <= b0.len(),
        forall|a: int, j: int| 0 <= a < b0.len() && 0 <= j < c0.len()
            ==> opt_view((#[trigger] b0[a]).container) != opt_view(#[trigger] c0[j]),
        forall|j: int| 0 <= j < c1.len() ==> opt_view(#[trigger] c1[j]) != opt_view(g.container),
        forall|j: int| 0 <= j < c1.len() ==> exists|i: int| 0 <= i < c0.len() && opt_view(#[trigger] c1[j]) == opt_view(c0[i]),
        forall|a: int| 0 <= a < b0.len() ==> pids_of((#[trigger] b0[a]).processes@).disjoint(pids_of(p0)),
        pids_of(p1).subset_of(pids_of(p0)),
        pids_of(p1).disjoint(pids_of(g.processes@)),
    ensures
        forall|a: int, j: int| 0 <= a < b0.len() + 1 && 0 <= j < c1.len()
            ==> opt_view((#[trigger] b0.insert(k, g)[a]).container) != opt_view(#[trigger] c1[j]),
        forall|a: int| 0 <= a < b0.len() + 1 ==> pids_of((#[trigger] b0.insert(k, g)[a]).processes@).disjoint(pids_of(p1)),
{
    let gs = b0.insert(k, g);
    assert forall|a: int, j: int| 0 <= a < b0.len() + 1 && 0 <= j < c1.len()
        implies opt_view((#[trigger] gs[a]).container) != opt_view(#[trigger] c1[j]) by {
        if a != k {
            let o = if a < k { a } else { a - 1 };
            assert(gs[a] == b0[o]);
            let i = choose|i: int| 0 <= i < c0.len() && opt_view(#[trigger] c1[j]) == opt_view(c0[i]);
            assert(opt_view(b0[o].container) != opt_view(c0[i]));
        }
    }
    assert forall|a: int| 0 <= a < b0.len() + 1 implies pids_of((#[trigger] gs[a]).processes@).disjoint(pids_of(p1)) by {
        if a != k {
            let o = if a < k { a } else { a - 1 };
            assert(gs[a] == b0[o]);
        }
    }
}

/// A container group from its processes.
fn make_group(
    members: Vec<ListenerProcessGroup>,
    c: Option<String>,
    Ghost(prs): Ghost<Seq<(SampleView, ProcessView)>>,
) -> (g: ListenerContainerGroup)
    requires
        members@.len() > 0,
        count_sum(members@) < usize::MAX,
        desc_processes(members@),
        distinct_pids(members@),
        forall|b: int| 0 <= b < members@.len() ==> group_describes(#[trigger] members@[b], opt_view(c), prs),
    ensures
        container_group_ok(g, prs),
        g.processes@ == members@,
        g.container == c,
        g.socket_count == count_sum(members@),
{
    reveal(container_group_ok);
    let mut sum: usize = 0;
    let mut b: usize = 0;
    while b < members.len()
        invariant
            b <= members@.len(),
            sum == count_sum(members@.subrange(0, b as int)),
            count_sum(members@) < usize::MAX,
        decreases members@.len() - b,
    {
        proof {
            assert(members@.subrange(0, b + 1).drop_last() == members@.subrange(0, b as int));
            lemma_count_sum_prefix(members@, b + 1);
        }
        sum = sum + members[b].socket_count;
        b = b + 1;
    }
    assert(members@.subrange(0, members@.len() as int) == members@);
    ListenerContainerGroup {
        container: c,
        socket_count: sum,
        process_count: members.len(),
        processes: members,
    }
}


/// Groups the sampled sockets by owning process, then by container: each process group
/// counts the process's sockets and lists their protocols and addresses in sorted order,
/// with the command, uid and container of the process's first entry; each container group
/// holds the processes of one container (or of the host), sums their sockets and counts
/// them. Processes and groups come in descending order of socket count; together the groups
/// account for every (socket, process) pair of the samples.
pub fn build_listener_groups(samples: &[SocketSample]) -> (r: Vec<ListenerContainerGroup>)
    requires
        pairs_of(sviews(samples@)).len() < usize::MAX,
    ensures
        groups_ok(r@, pairs_of(sviews(samples@))),
        group_sum(r@) == pairs_of(sviews(samples@)).len(),
{
    let (procs, conts) = process_groups(samples);
    group_by_container(procs, conts, Ghost(pairs_of(sviews(samples@))))
}

/// A container group's socket count is the sum of its processes' socket counts, and its
/// process count the number of its processes.
pub proof fn lemma_container_counts(g: ListenerContainerGroup, prs: Seq<(SampleView, ProcessView)>)
    requires
        container_group_ok(g, prs),
    ensures
        g.socket_count == count_sum(g.processes@),
        g.process_count == g.processes@.len(),
{
    reveal(container_group_ok);
}

/// Interfaces in order of name.
pub open spec fn sorted_by_name(v: Seq<InterfaceInfo>) -> bool {
    forall|i: int| 0 <= i < v.len() - 1 ==> !seq_lt(v[i + 1].name@, (#[trigger] v[i]).name@)
}

/// The interfaces sorted by name.
pub fn sort_interfaces(v: Vec<InterfaceInfo>) -> (r: Vec<InterfaceInfo>)
    ensures
        sorted_by_name(r@),
        r@.to_multiset() == v@.to_multiset(),
{
    broadcast use vstd::seq_lib::group_to_multiset_ensures;
    let mut rest = v;
    let mut out: Vec<InterfaceInfo> = Vec::new();
    let ghost all = rest@;
    assert(out@.to_multiset() =~= vstd::multiset::Multiset::empty());
    while rest.len() > 0
        invariant
            sorted_by_name(out@),
            out@.to_multiset().add(rest@.to_multiset()) == all.to_multiset(),
        decreases rest@.len(),
    {
        let ghost r0 = rest@;
        let x = rest.pop().unwrap();
        assert(r0 == rest@.push(x));
        let ghost ob = out@;
        let mut k: usize = 0;
        while k < out.len() && !str_lt(x.name.as_str(), out[k].name.as_str())
            invariant
                out@ == ob,
                sorted_by_name(ob),
                k <= out@.len(),
                forall|j: int| 0 <= j < k ==> !seq_lt(x.name@, (#[trigger] out@[j]).name@),
            decreases out@.len() - k,
        {
            k = k + 1;
        }
        let ghost o0 = out@;
        proof {
            if k < o0.len() {
                lemma_seq_lt_asym(x.name@, o0[k as int].name@);
            }
        }
        out.insert(k, x);
        assert(out@ == o0.insert(k as int, x));
        assert forall|i: int| 0 <= i < out@.len() - 1 implies !seq_lt(out@[i + 1].name@, (#[trigger] out@[i]).name@) by {
            if i + 1 < k {
                assert(out@[i] == o0[i] && out@[i + 1] == o0[i + 1]);
                assert(!seq_lt(o0[i + 1].name@, o0[i].name@));
            } else if i + 1 == k {
                assert(out@[i] == o0[i]);
                assert(!seq_lt(x.name@, ob[i].name@));
            } else if i == k {
                assert(out@[i + 1] == o0[i]);
            } else {
                assert(out@[i] == o0[i - 1] && out@[i + 1] == o0[i]);
                assert(!seq_lt(o0[i].name@, o0[i - 1].name@));
            }
        }
        proof {
            vstd::seq_lib::to_multiset_insert(o0, k as int, x);
            vstd::seq_lib::to_multiset_build(rest@, x);
        }
        assert(out@.to_multiset().add(rest@.to_multiset()) =~= all.to_multiset());
    }
    assert(rest@.to_multiset() =~= vstd::multiset::Multiset::empty());
    assert(out@.to_multiset() =~= out@.to_multiset().add(rest@.to_multiset()));
    out
}

proof fn lemma_seq_lt_asym(a: Seq<char>, b: Seq<char>)
    requires
        seq_lt(a, b),
    ensures
        !seq_lt(b, a),
    decreases a.len(),
{
    if a.len() > 0 && b.len() > 0 && a[0] == b[0] {
        lemma_seq_lt_asym(a.drop_first(), b.drop_first());
    }
}


/// The listener view of a host where nothing could be read.
pub open spec fn empty_listeners(l: ListenerSnapshot) -> bool {
    l.counts.sum() == 0 && l.samples@.len() == 0 && l.groups@.len() == 0 && l.insights@.len() == 0
}

/// The network section. Without interface data the section is an error, with an empty
/// body; otherwise it holds the interfaces sorted by name and the listener view, with a
/// note for each socket table that could not be read.
pub fn network_section(
    interfaces: Result<Vec<InterfaceInfo>, String>,
    tables: SocketTables,
    records: &Vec<ProcessRecord>,
) -> (r: Section)
    ensures
        r.id@ == "network"@,
        r.title@ == "Network Overview"@,
        r.wf(),
        r.duration_ms is None,
        match interfaces {
            Err(_) => r.status == SectionStatus::Error && (r.summary matches Some(m) && m@
                == "failed to read network interfaces"@) && (r.body matches SectionBody::Network(b)
                && b.interfaces@.len() == 0 && empty_listeners(b.listeners)),
            Ok(v) => if v@.len() == 0 {
                r.status == SectionStatus::Error && (r.summary matches Some(m) && m@
                    == "no network interface data available"@) && (r.body matches SectionBody::Network(b)
                    && b.interfaces@.len() == 0 && empty_listeners(b.listeners))
            } else {
                r.status == SectionStatus::Success && (r.body matches SectionBody::Network(b)
                    && sorted_by_name(b.interfaces@)
                    && b.interfaces@.to_multiset() == v@.to_multiset()
                    && listeners_spec(b.listeners, tables, records@)
                    && (r.summary matches Some(m) && m@ == decimal_of(v@.len()) + " interfaces, "@
                        + decimal_of(b.listeners.counts.sum() as nat) + " listening sockets"@))
                    && views(r.notes@) == notes_spec(tables)
            },
        },
{
    let failure = match &interfaces {
        Err(_) => Some(String::from_str("failed to read network interfaces")),
        Ok(v) => if v.len() == 0 {
            Some(String::from_str("no network interface data available"))
        } else {
            None
        },
    };
    match failure {
        Some(summary) => {
            let body = NetworkSnapshot {
                interfaces: Vec::new(),
                listeners: ListenerSnapshot {
                    counts: ListenerCounts::zero(),
                    samples: Vec::new(),
                    groups: Vec::new(),
                    insights: Vec::new(),
                },
            };
            Section {
                id: "network",
                title: "Network Overview",
                status: SectionStatus::Error,
                summary: Some(summary),
                body: SectionBody::Network(body),
                notes: Vec::new(),
                duration_ms: None,
            }
        },
        None => {
            let list = match interfaces {
                Ok(v) => v,
                Err(_) => Vec::new(),
            };
            let count = list.len();
            let sorted = sort_interfaces(list);
            let (listeners, notes) = gather_listeners(tables, records);
            let c = listeners.counts;
            let total: u128 = c.tcp as u128 + c.tcp6 as u128 + c.udp as u128 + c.udp6 as u128;
            let mut summary = decimal(count as u128);
            summary.append(" interfaces, ");
            summary.append(decimal(total).as_str());
            summary.append(" listening sockets");
            let body = NetworkSnapshot { interfaces: sorted, listeners };
            let mut section = Section::success("network", "Network Overview", SectionBody::Network(body));
            section.summary = Some(summary);
            section.notes = notes;
            section
        },
    }
}


/// The listener groups of the samples (see `build_listener_groups`), where the number of
/// (socket, process) pairs fits in a `usize`; `None` exactly where it does not.
pub fn listener_groups(samples: &[SocketSample]) -> (r: Option<Vec<ListenerContainerGroup>>)
    ensures
        r is Some <==> pairs_of(sviews(samples@)).len() < usize::MAX,
        r matches Some(gs) ==> groups_ok(gs@, pairs_of(sviews(samples@))) && group_sum(gs@)
            == pairs_of(sviews(samples@)).len(),
{
    let ghost ss = sviews(samples@);
    let mut total: u128 = 0;
    let mut i: usize = 0;
    assert(pairs_of(ss.subrange(0, 0)) =~= Seq::empty());
    while i < samples.len()
        invariant
            ss == sviews(samples@),
            i <= samples@.len(),
            total == pairs_of(ss.subrange(0, i as int)).len(),
            total <= i * (usize::MAX as int),
        decreases samples@.len() - i,
    {
        proof {
            lemma_pairs_prefix(ss, i as int);
        }
        assert(ss[i as int] == samples@[i as int]@);
        let len = samples[i].processes.len();
        assert(total + len <= (i + 1) * (usize::MAX as int)) by (nonlinear_arith)
            requires
                total <= i * (usize::MAX as int),
                len <= usize::MAX,
        ;
        assert((i + 1) * (usize::MAX as int) <= u128::MAX) by (nonlinear_arith)
            requires
                i < usize::MAX,
        ;
        total = total + len as u128;
        i = i + 1;
    }
    assert(ss.subrange(0, samples@.len() as int) == ss);
    if total < usize::MAX as u128 {
        Some(build_listener_groups(samples))
    } else {
        None
    }
}

} // verus!

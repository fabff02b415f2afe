use vstd::prelude::*;

use crate::protocol::ServiceError;
use crate::registry::TunnelId;
use crate::text::{
    bounded_numeral, chars_of, decimal, decimal_chars, hexadecimal, hexadecimal_chars, join_chars,
    joined, lemma_decimal, lemma_hexadecimal, lemma_joined_excludes, lemma_split_joined,
    lemma_splitn_nonempty, push_all, read_numeral, same_chars, slice_chars, split_chars, splitn,
    string_from_chars, views,
};

verus! {

/// Which address families a DNS name is resolved to.
#[derive(Debug, Clone, Copy, PartialEq, Eq)]
pub enum DnsClass {
    PreferHigher,
    Dns4,
    Dns6,
}

/// A host name to resolve, with the port to reach on it.
#[derive(Debug, Clone, PartialEq, Eq)]
pub enum DnsTarget {
    PreferHigher { host: String, port: u16 },
    Dns4 { host: String, port: u16 },
    Dns6 { host: String, port: u16 },
}

/// An IP socket address: four octets or eight 16-bit groups, and a port.
#[derive(Debug, Clone, Copy, PartialEq, Eq)]
pub enum SocketAddress {
    V4 { octets: [u8; 4], port: u16 },
    V6 { segments: [u16; 8], port: u16 },
}

/// Where the TCP proxy is asked to connect.
#[derive(Debug, Clone, PartialEq, Eq)]
pub enum TcpStreamTarget {
    /// The loopback interface, IPv6 first, then IPv4.
    Port(u16),
    SocketAddr(SocketAddress),
    Dns(DnsTarget),
}

#[derive(Debug, Clone, Copy, PartialEq, Eq)]
pub enum TcpStreamTargetParseError {
    TooFewSegments,
    InvalidPrefix,
    NoMatchingFormat,
    InvalidPort,
    InvalidIP,
}

/// A target as plain values.
pub enum TargetView {
    Port(u16),
    V4(Seq<u8>, u16),
    V6(Seq<u16>, u16),
    Dns(DnsClass, Seq<char>, u16),
}

impl DnsTarget {
    pub open spec fn class(&self) -> DnsClass {
        match self {
            DnsTarget::PreferHigher { .. } => DnsClass::PreferHigher,
            DnsTarget::Dns4 { .. } => DnsClass::Dns4,
            DnsTarget::Dns6 { .. } => DnsClass::Dns6,
        }
    }

    pub open spec fn host_view(&self) -> Seq<char> {
        match self {
            DnsTarget::PreferHigher { host, .. } => host@,
            DnsTarget::Dns4 { host, .. } => host@,
            DnsTarget::Dns6 { host, .. } => host@,
        }
    }

    pub open spec fn port_spec(&self) -> u16 {
        match self {
            DnsTarget::PreferHigher { port, .. } => *port,
            DnsTarget::Dns4 { port, .. } => *port,
            DnsTarget::Dns6 { port, .. } => *port,
        }
    }
}

impl View for TcpStreamTarget {
    type V = TargetView;

    open spec fn view(&self) -> TargetView {
        match self {
            TcpStreamTarget::Port(p) => TargetView::Port(*p),
            TcpStreamTarget::SocketAddr(SocketAddress::V4 { octets, port }) => TargetView::V4(octets@, *port),
            TcpStreamTarget::SocketAddr(SocketAddress::V6 { segments, port }) => TargetView::V6(segments@, *port),
            TcpStreamTarget::Dns(d) => TargetView::Dns(d.class(), d.host_view(), d.port_spec()),
        }
    }
}

pub open spec fn lit_tcp() -> Seq<char> {
    seq!['t', 'c', 'p']
}

pub open spec fn lit_ip4() -> Seq<char> {
    seq!['i', 'p', '4']
}

pub open spec fn lit_ip6() -> Seq<char> {
    seq!['i', 'p', '6']
}

pub open spec fn lit_dns() -> Seq<char> {
    seq!['d', 'n', 's']
}

pub open spec fn lit_dns4() -> Seq<char> {
    seq!['d', 'n', 's', '4']
}

pub open spec fn lit_dns6() -> Seq<char> {
    seq!['d', 'n', 's', '6']
}

/// A port: decimal digits, optionally after a `+`, worth at most 65535.
pub open spec fn port_of(s: Seq<char>) -> Option<nat> {
    if s.len() > 0 && s[0] == '+' {
        bounded_numeral(s.skip(1), 10, 65535)
    } else {
        bounded_numeral(s, 10, 65535)
    }
}

/// An IPv4 octet: one to three decimal digits, no leading zero, worth at most 255.
pub open spec fn octet_of(s: Seq<char>) -> Option<nat> {
    if s.len() <= 3 && !(s.len() > 1 && s[0] == '0') {
        bounded_numeral(s, 10, 255)
    } else {
        None
    }
}

/// An IPv6 group: one to four hexadecimal digits.
pub open spec fn group_of(s: Seq<char>) -> Option<nat> {
    if s.len() <= 4 {
        bounded_numeral(s, 16, 65535)
    } else {
        None
    }
}

/// Dotted-decimal IPv4 address: four octets separated by `.`.
pub open spec fn ipv4_of(s: Seq<char>) -> Option<Seq<u8>> {
    let p = splitn(s, 5, '.');
    if p.len() == 4 && forall|i: int| 0 <= i < 4 ==> (#[trigger] octet_of(p[i])) is Some {
        Some(Seq::new(4, |i: int| octet_of(p[i])->0 as u8))
    } else {
        None
    }
}

/// Position of the first `::` in `s`, or the length of `s` where it has none.
pub open spec fn find_double_colon(s: Seq<char>) -> nat
    decreases s.len(),
{
    if s.len() < 2 {
        s.len()
    } else if s[0] == ':' && s[1] == ':' {
        0
    } else {
        1 + find_double_colon(s.skip(1))
    }
}

/// The `:`-separated groups on one side of a `::`; none where that side is empty.
pub open spec fn side_groups(s: Seq<char>) -> Seq<Seq<char>> {
    if s.len() == 0 {
        Seq::empty()
    } else {
        splitn(s, 9, ':')
    }
}

pub open spec fn groups_valid(p: Seq<Seq<char>>) -> bool {
    forall|i: int| 0 <= i < p.len() ==> (#[trigger] group_of(p[i])) is Some
}

pub open spec fn group_values(p: Seq<Seq<char>>) -> Seq<u16> {
    Seq::new(p.len(), |i: int| group_of(p[i])->0 as u16)
}

/// The two groups that a dotted IPv4 address fills at the end of an IPv6 address.
pub open spec fn ipv4_groups(a: Seq<u8>) -> Seq<u16> {
    seq![(a[0] as int * 256 + a[1] as int) as u16, (a[2] as int * 256 + a[3] as int) as u16]
}

/// The values of a run of groups, the last of which may be a dotted IPv4 address that
/// stands for two groups.
pub open spec fn run_values(p: Seq<Seq<char>>) -> Option<Seq<u16>> {
    if p.len() == 0 {
        Some(Seq::empty())
    } else if !groups_valid(p.drop_last()) {
        None
    } else {
        match group_of(p.last()) {
            Some(g) => Some(group_values(p.drop_last()).push(g as u16)),
            None => match ipv4_of(p.last()) {
                Some(a) => Some(group_values(p.drop_last()) + ipv4_groups(a)),
                None => None,
            },
        }
    }
}

/// IPv6 address: eight hexadecimal groups separated by `:`, or fewer around one `::` that
/// stands for as many zero groups as are missing (at least one). The last two groups may
/// be written as a dotted IPv4 address.
pub open spec fn ipv6_of(s: Seq<char>) -> Option<Seq<u16>> {
    let k = find_double_colon(s);
    if k >= s.len() {
        match run_values(splitn(s, 9, ':')) {
            Some(v) => if v.len() == 8 {
                Some(v)
            } else {
                None
            },
            None => None,
        }
    } else {
        let l = side_groups(s.take(k as int));
        match run_values(side_groups(s.skip(k + 2int))) {
            Some(r) => if l.len() + r.len() <= 7 && groups_valid(l) {
                Some(group_values(l) + Seq::new((8 - l.len() - r.len()) as nat, |i: int| 0u16) + r)
            } else {
                None
            },
            None => None,
        }
    }
}

/// The target that the segments between the leading `/` and the port describe.
pub open spec fn target_of(mid: Seq<Seq<char>>, port: u16) -> Result<TargetView, TcpStreamTargetParseError> {
    if mid == seq![lit_tcp()] {
        Ok(TargetView::Port(port))
    } else if mid.len() == 3 && mid[2] == lit_tcp() {
        if mid[0] == lit_ip4() {
            match ipv4_of(mid[1]) {
                Some(a) => Ok(TargetView::V4(a, port)),
                None => Err(TcpStreamTargetParseError::InvalidIP),
            }
        } else if mid[0] == lit_ip6() {
            match ipv6_of(mid[1]) {
                Some(a) => Ok(TargetView::V6(a, port)),
                None => Err(TcpStreamTargetParseError::InvalidIP),
            }
        } else if mid[0] == lit_dns() {
            Ok(TargetView::Dns(DnsClass::PreferHigher, mid[1], port))
        } else if mid[0] == lit_dns4() {
            Ok(TargetView::Dns(DnsClass::Dns4, mid[1], port))
        } else if mid[0] == lit_dns6() {
            Ok(TargetView::Dns(DnsClass::Dns6, mid[1], port))
        } else {
            Err(TcpStreamTargetParseError::NoMatchingFormat)
        }
    } else {
        Err(TcpStreamTargetParseError::NoMatchingFormat)
    }
}

/// Reading a route address: it is cut at `/` into at most five segments; the first must be
/// empty, the last is the port, and those between name the kind of target.
pub open spec fn parse_target(s: Seq<char>) -> Result<TargetView, TcpStreamTargetParseError> {
    let parts = splitn(s, 5, '/');
    if parts[0].len() != 0 {
        Err(TcpStreamTargetParseError::InvalidPrefix)
    } else if parts.len() < 2 {
        Err(TcpStreamTargetParseError::TooFewSegments)
    } else {
        match port_of(parts.last()) {
            None => Err(TcpStreamTargetParseError::InvalidPort),
            Some(port) => target_of(parts.subrange(1, parts.len() - 1), port as u16),
        }
    }
}

pub open spec fn ipv4_text(a: Seq<u8>) -> Seq<char> {
    joined(Seq::new(4, |i: int| decimal(a[i] as nat)), '.')
}

/// Groups in lower-case hexadecimal without leading zeros, separated by `:`.
pub open spec fn hex_groups_text(g: Seq<u16>) -> Seq<char> {
    joined(Seq::new(g.len(), |i: int| hexadecimal(g[i] as nat)), ':')
}

/// `a` holds zeros from `start` for `len` places.
pub open spec fn zeros_at(a: Seq<u16>, start: int, len: int) -> bool {
    0 <= start && 0 <= len && start + len <= a.len() && forall|k: int| start <= k < start + len ==> a[k] == 0
}

/// Scans the groups from `i` on for runs of zeros: the current run starts at `cs` and is
/// `cl` long, the longest so far starts at `bs` and is `bl` long; only a strictly longer run
/// replaces it, so the first of several equally long runs is kept.
pub open spec fn scan_zeros(a: Seq<u16>, i: int, cs: int, cl: int, bs: int, bl: int) -> (int, int)
    decreases a.len() - i,
{
    if i >= a.len() || i < 0 {
        (bs, bl)
    } else if a[i] == 0 {
        let ncs = if cl == 0 { i } else { cs };
        if cl + 1 > bl {
            scan_zeros(a, i + 1, ncs, cl + 1, ncs, cl + 1)
        } else {
            scan_zeros(a, i + 1, ncs, cl + 1, bs, bl)
        }
    } else {
        scan_zeros(a, i + 1, 0, 0, bs, bl)
    }
}

/// The longest run of zero groups, the first where several are as long: its start and length.
pub open spec fn zero_run(a: Seq<u16>) -> (int, int) {
    scan_zeros(a, 0, 0, 0, 0, 0)
}

proof fn lemma_scan_zeros(a: Seq<u16>, i: int, cs: int, cl: int, bs: int, bl: int)
    requires
        0 <= i <= a.len(),
        zeros_at(a, bs, bl),
        zeros_at(a, cs, cl),
        cl > 0 ==> cs + cl == i,
    ensures
        zeros_at(a, scan_zeros(a, i, cs, cl, bs, bl).0, scan_zeros(a, i, cs, cl, bs, bl).1),
    decreases a.len() - i,
{
    if i < a.len() {
        if a[i] == 0 {
            let ncs = if cl == 0 { i } else { cs };
            assert(zeros_at(a, ncs, cl + 1));
            lemma_scan_zeros(a, i + 1, ncs, cl + 1, ncs, cl + 1);
            lemma_scan_zeros(a, i + 1, ncs, cl + 1, bs, bl);
        } else {
            lemma_scan_zeros(a, i + 1, 0, 0, bs, bl);
        }
    }
}

/// An IPv4 address carried as `::ffff:a.b.c.d`.
pub open spec fn is_ipv4_mapped(a: Seq<u16>) -> bool {
    a[0] == 0 && a[1] == 0 && a[2] == 0 && a[3] == 0 && a[4] == 0 && a[5] == 0xffff
}

pub open spec fn mapped_octets(a: Seq<u16>) -> Seq<u8> {
    seq![(a[6] / 256) as u8, (a[6] % 256) as u8, (a[7] / 256) as u8, (a[7] % 256) as u8]
}

pub open spec fn lit_mapped_prefix() -> Seq<char> {
    seq![':', ':', 'f', 'f', 'f', 'f', ':']
}

/// An IPv6 address as text: an IPv4-mapped address as `::ffff:` and its dotted form;
/// otherwise the groups in hexadecimal, with the longest run of two or more zero groups
/// (the first, where several are as long) written as `::`.
pub open spec fn ipv6_text(a: Seq<u16>) -> Seq<char> {
    if is_ipv4_mapped(a) {
        lit_mapped_prefix() + ipv4_text(mapped_octets(a))
    } else {
        let (start, len) = zero_run(a);
        if len > 1 {
            compressed_text(a, start, len)
        } else {
            hex_groups_text(a)
        }
    }
}

pub open spec fn dns_keyword(c: DnsClass) -> Seq<char> {
    match c {
        DnsClass::PreferHigher => lit_dns(),
        DnsClass::Dns4 => lit_dns4(),
        DnsClass::Dns6 => lit_dns6(),
    }
}

/// The `/`-separated segments of a target's route address.
pub open spec fn segments_of(t: TargetView) -> Seq<Seq<char>> {
    match t {
        TargetView::Port(p) => seq![Seq::empty(), lit_tcp(), decimal(p as nat)],
        TargetView::V4(a, p) => seq![Seq::empty(), lit_ip4(), ipv4_text(a), lit_tcp(), decimal(p as nat)],
        TargetView::V6(a, p) => seq![Seq::empty(), lit_ip6(), ipv6_text(a), lit_tcp(), decimal(p as nat)],
        TargetView::Dns(c, h, p) => seq![Seq::empty(), dns_keyword(c), h, lit_tcp(), decimal(p as nat)],
    }
}

/// Writing a route address: `/tcp/<port>`, `/ip4/<a.b.c.d>/tcp/<port>`,
/// `/ip6/<eight groups>/tcp/<port>`, or `/dns|dns4|dns6/<host>/tcp/<port>`.
pub open spec fn format_target(t: TargetView) -> Seq<char> {
    joined(segments_of(t), '/')
}

/// The targets that a route address can carry and give back: IP addresses of the right
/// length, and host names without `/`.
pub open spec fn target_well_formed(t: TargetView) -> bool {
    match t {
        TargetView::Port(_) => true,
        TargetView::V4(a, _) => a.len() == 4,
        TargetView::V6(a, _) => a.len() == 8,
        TargetView::Dns(_, h, _) => !h.contains('/'),
    }
}

proof fn lemma_literals()
    ensures
        !lit_tcp().contains('/'),
        !lit_ip4().contains('/'),
        !lit_ip6().contains('/'),
        !lit_dns().contains('/'),
        !lit_dns4().contains('/'),
        !lit_dns6().contains('/'),
        lit_dns() != lit_ip4() && lit_dns() != lit_ip6(),
        lit_dns4() != lit_ip4() && lit_dns4() != lit_ip6() && lit_dns4() != lit_dns(),
        lit_dns6() != lit_ip4() && lit_dns6() != lit_ip6() && lit_dns6() != lit_dns(),
        lit_dns6() != lit_dns4(),
        lit_ip6() != lit_ip4(),
{
    assert(lit_dns()[0] != lit_ip4()[0]);
    assert(lit_dns()[0] != lit_ip6()[0]);
    assert(lit_dns4()[0] != lit_ip4()[0]);
    assert(lit_dns4()[0] != lit_ip6()[0]);
    assert(lit_dns6()[0] != lit_ip4()[0]);
    assert(lit_dns6()[0] != lit_ip6()[0]);
    assert(lit_dns6()[3] != lit_dns4()[3]);
    assert(lit_ip6()[2] != lit_ip4()[2]);
}

proof fn lemma_port_round_trip(p: u16)
    ensures
        port_of(decimal(p as nat)) == Some(p as nat),
        !decimal(p as nat).contains('/'),
{
    lemma_decimal(p as nat);
}

proof fn lemma_ipv4_round_trip(a: Seq<u8>)
    requires
        a.len() == 4,
    ensures
        ipv4_of(ipv4_text(a)) == Some(a),
        !ipv4_text(a).contains('/'),
{
    let parts = Seq::new(4, |i: int| decimal(a[i] as nat));
    assert forall|i: int| 0 <= i < parts.len() implies !(#[trigger] parts[i]).contains('.') && !parts[i].contains('/') by {
        lemma_decimal(a[i] as nat);
    }
    lemma_split_joined(parts, 5, '.');
    lemma_joined_excludes(parts, '.', '/');
    assert forall|i: int| 0 <= i < 4 implies (#[trigger] octet_of(parts[i])) == Some(a[i] as nat) by {
        lemma_decimal(a[i] as nat);
    }
    assert(Seq::new(4, |i: int| octet_of(parts[i])->0 as u8) =~= a);
}

/// Groups written in hexadecimal read back as themselves, as one run of groups.
proof fn lemma_hex_run(g: Seq<u16>)
    requires
        g.len() <= 8,
    ensures
        ({
            let t = hex_groups_text(g);
            &&& run_values(side_groups(t)) == Some(g)
            &&& groups_valid(side_groups(t))
            &&& group_values(side_groups(t)) == g
            &&& side_groups(t).len() == g.len()
            &&& !t.contains('/')
            &&& forall|j: int| 0 <= j && j + 1 < t.len() ==> !(#[trigger] t[j] == ':' && t[j + 1] == ':')
            &&& g.len() > 0 ==> t.len() > 0 && t[0] != ':' && t[t.len() - 1] != ':'
            &&& g.len() == 0 ==> t.len() == 0
        }),
{
    let parts = Seq::new(g.len(), |i: int| hexadecimal(g[i] as nat));
    let t = hex_groups_text(g);
    assert forall|i: int| 0 <= i < parts.len() implies !(#[trigger] parts[i]).contains(':') && !parts[i].contains('/') && parts[i].len() > 0 by {
        lemma_hexadecimal(g[i] as nat);
    }
    lemma_joined_excludes(parts, ':', '/');
    lemma_joined_no_double(parts);
    if g.len() == 0 {
        assert(side_groups(t) =~= Seq::<Seq<char>>::empty());
        assert(group_values(side_groups(t)) =~= g);
    } else {
        lemma_split_joined(parts, 9, ':');
        lemma_joined_first(parts);
        lemma_joined_last(parts);
        assert(parts[0].contains(parts[0][0]));
        assert(parts.last().contains(parts.last()[parts.last().len() - 1]));
        assert(side_groups(t) == parts);
        assert forall|i: int| 0 <= i < g.len() implies (#[trigger] group_of(parts[i])) == Some(g[i] as nat) by {
            lemma_hexadecimal(g[i] as nat);
        }
        assert(group_values(parts) =~= g);
        let init = parts.drop_last();
        assert forall|i: int| 0 <= i < init.len() implies (#[trigger] group_of(init[i])) is Some by {
            assert(init[i] == parts[i]);
        }
        assert(group_values(init).push(group_of(parts.last())->0 as u16) =~= g);
    }
}

/// Joined non-empty pieces take at least two characters a piece, less one.
proof fn lemma_joined_len(parts: Seq<Seq<char>>, c: char)
    requires
        parts.len() >= 1,
        forall|i: int| 0 <= i < parts.len() ==> (#[trigger] parts[i]).len() > 0,
    ensures
        joined(parts, c).len() >= 2 * parts.len() - 1,
    decreases parts.len(),
{
    if parts.len() > 1 {
        let rest = parts.skip(1);
        assert forall|i: int| 0 <= i < rest.len() implies (#[trigger] rest[i]).len() > 0 by {
            assert(rest[i] == parts[i + 1]);
        }
        lemma_joined_len(rest, c);
        assert(parts[0].len() > 0);
    }
}

/// Joined pieces end with the last piece's last character.
proof fn lemma_joined_last(parts: Seq<Seq<char>>)
    requires
        parts.len() >= 1,
        forall|i: int| 0 <= i < parts.len() ==> (#[trigger] parts[i]).len() > 0,
    ensures
        joined(parts, ':').len() > 0,
        joined(parts, ':')[joined(parts, ':').len() - 1] == parts.last()[parts.last().len() - 1],
    decreases parts.len(),
{
    if parts.len() > 1 {
        let rest = parts.skip(1);
        assert forall|i: int| 0 <= i < rest.len() implies (#[trigger] rest[i]).len() > 0 by {
            assert(rest[i] == parts[i + 1]);
        }
        lemma_joined_last(rest);
        assert(rest.last() == parts.last());
    }
}

proof fn lemma_ffff()
    ensures
        group_of(seq!['f', 'f', 'f', 'f']) == Some(65535nat),
        !seq!['f', 'f', 'f', 'f'].contains(':'),
{
    reveal_with_fuel(hexadecimal, 5);
    lemma_hexadecimal(65535);
    assert(hexadecimal(65535) =~= seq!['f', 'f', 'f', 'f']);
}

proof fn lemma_mapped_round_trip(a: Seq<u16>)
    requires
        a.len() == 8,
        is_ipv4_mapped(a),
    ensures
        ipv6_of(ipv6_text(a)) == Some(a),
        !ipv6_text(a).contains('/'),
{
    let t = ipv6_text(a);
    let o = mapped_octets(a);
    lemma_ipv4_round_trip(o);
    lemma_ffff();
    let v4 = ipv4_text(o);
    let parts4 = Seq::new(4, |i: int| decimal(o[i] as nat));
    assert forall|i: int| 0 <= i < parts4.len() implies !(#[trigger] parts4[i]).contains(':') by {
        lemma_decimal(o[i] as nat);
    }
    lemma_joined_excludes(parts4, '.', ':');
    lemma_double_colon_at(t, 0);
    let ff = seq!['f', 'f', 'f', 'f'];
    let right = t.skip(2);
    assert(right =~= ff + seq![':'] + v4);
    let pieces = seq![ff, v4];
    assert(joined(pieces, ':') =~= right) by {
        reveal_with_fuel(joined, 2);
        assert(pieces.skip(1) =~= seq![v4]);
    }
    lemma_split_joined(pieces, 9, ':');
    assert(side_groups(right) == pieces);
    assert(pieces.drop_last() =~= seq![ff]);
    assert(v4.len() >= 7) by {
        assert forall|i: int| 0 <= i < parts4.len() implies (#[trigger] parts4[i]).len() > 0 by {
            lemma_decimal(o[i] as nat);
        }
        lemma_joined_len(parts4, '.');
    }
    assert(group_of(v4) is None);
    assert(t.take(0) =~= Seq::<char>::empty());
    assert(side_groups(t.take(0)) =~= Seq::<Seq<char>>::empty());
    let r = group_values(seq![ff]) + ipv4_groups(o);
    assert(r.len() == 3);
    assert(group_values(Seq::<Seq<char>>::empty()) + Seq::new(5, |i: int| 0u16) + r =~= a);
    assert(!t.contains('/')) by {
        if t.contains('/') {
            let k = choose|k: int| 0 <= k < t.len() && t[k] == '/';
            if k >= 7 {
                assert(v4[k - 7] == '/');
            }
        }
    }
}

/// The text with the zero run at `start`, `len` places long, written as `::`.
pub open spec fn compressed_text(a: Seq<u16>, start: int, len: int) -> Seq<char> {
    hex_groups_text(a.take(start)) + seq![':', ':'] + hex_groups_text(a.skip(start + len))
}

proof fn lemma_compressed_round_trip(a: Seq<u16>, start: int, len: int)
    requires
        a.len() == 8,
        zeros_at(a, start, len),
        len > 1,
    ensures
        ipv6_of(compressed_text(a, start, len)) == Some(a),
        !compressed_text(a, start, len).contains('/'),
{
    let t = compressed_text(a, start, len);
    let lg = a.take(start);
    let rg = a.skip(start + len);
    lemma_hex_run(lg);
    lemma_hex_run(rg);
    let lt = hex_groups_text(lg);
    let rt = hex_groups_text(rg);
    assert forall|j: int| 0 <= j < lt.len() implies !(#[trigger] t[j] == ':' && t[j + 1] == ':') by {
        assert(t[j] == lt[j]);
        if j + 1 < lt.len() {
            assert(t[j + 1] == lt[j + 1]);
        }
    }
    assert(t[lt.len() as int] == ':' && t[lt.len() + 1int] == ':');
    lemma_double_colon_at(t, lt.len() as int);
    assert(t.take(lt.len() as int) =~= lt);
    assert(t.skip(lt.len() + 2int) =~= rt);
    assert(group_values(side_groups(lt)) + Seq::new((8 - lg.len() - rg.len()) as nat, |i: int| 0u16) + rg =~= a);
    assert(!t.contains('/')) by {
        if t.contains('/') {
            let k = choose|k: int| 0 <= k < t.len() && t[k] == '/';
            if k < lt.len() {
                assert(lt[k] == '/');
            } else if k >= lt.len() + 2 {
                assert(rt[k - lt.len() - 2] == '/');
            }
        }
    }
}

proof fn lemma_ipv6_round_trip(a: Seq<u16>)
    requires
        a.len() == 8,
    ensures
        ipv6_of(ipv6_text(a)) == Some(a),
        !ipv6_text(a).contains('/'),
{
    if is_ipv4_mapped(a) {
        lemma_mapped_round_trip(a);
    } else {
        let (start, len) = zero_run(a);
        lemma_scan_zeros(a, 0, 0, 0, 0, 0);
        if len > 1 {
            lemma_compressed_round_trip(a, start, len);
        } else {
            let t = ipv6_text(a);
            lemma_hex_run(a);
            lemma_double_colon_absent(t);
        }
    }
}

/// Pieces that are not empty and hold no `:`, joined with `:`, never show `::`.
proof fn lemma_joined_no_double(parts: Seq<Seq<char>>)
    requires
        forall|i: int| 0 <= i < parts.len() ==> !(#[trigger] parts[i]).contains(':') && parts[i].len() > 0,
    ensures
        forall|j: int|
            0 <= j && j + 1 < joined(parts, ':').len() ==> !(#[trigger] joined(parts, ':')[j] == ':'
                && joined(parts, ':')[j + 1] == ':'),
    decreases parts.len(),
{
    if parts.len() > 1 {
        let rest = parts.skip(1);
        assert forall|i: int| 0 <= i < rest.len() implies !(#[trigger] rest[i]).contains(':') && rest[i].len() > 0 by {
            assert(rest[i] == parts[i + 1]);
        }
        lemma_joined_no_double(rest);
        lemma_joined_first(rest);
        let s = joined(parts, ':');
        let p0 = parts[0];
        let t = joined(rest, ':');
        assert(s == p0 + seq![':'] + t);
        assert forall|j: int| 0 <= j && j + 1 < s.len() implies !(#[trigger] s[j] == ':' && s[j + 1] == ':') by {
            if j < p0.len() {
                assert(s[j] == p0[j]);
                assert(p0.contains(p0[j]));
            } else if j == p0.len() {
                assert(s[j + 1] == t[0]);
                assert(t[0] == rest[0][0]);
                assert(rest[0].contains(rest[0][0]));
            } else {
                assert(s[j] == t[j - p0.len() - 1]);
                assert(s[j + 1] == t[j - p0.len()]);
            }
        }
    } else if parts.len() == 1 {
        assert forall|j: int| 0 <= j && j + 1 < parts[0].len() implies !(#[trigger] parts[0][j] == ':' && parts[0][j + 1] == ':') by {
            assert(parts[0].contains(parts[0][j]));
        }
    }
}

/// Joined pieces begin with the first piece's first character.
proof fn lemma_joined_first(parts: Seq<Seq<char>>)
    requires
        parts.len() >= 1,
        parts[0].len() > 0,
    ensures
        joined(parts, ':').len() > 0,
        joined(parts, ':')[0] == parts[0][0],
{
}

/// Where no `:` is followed by another, there is no `::` to find.
proof fn lemma_double_colon_absent(s: Seq<char>)
    requires
        forall|j: int| 0 <= j && j + 1 < s.len() ==> !(#[trigger] s[j] == ':' && s[j + 1] == ':'),
    ensures
        find_double_colon(s) == s.len(),
    decreases s.len(),
{
    if s.len() >= 2 {
        let t = s.skip(1);
        assert forall|j: int| 0 <= j && j + 1 < t.len() implies !(#[trigger] t[j] == ':' && t[j + 1] == ':') by {
            assert(t[j] == s[j + 1] && t[j + 1] == s[j + 2]);
        }
        assert(!(s[0] == ':' && s[1] == ':'));
        lemma_double_colon_absent(t);
    }
}

/// Reading the route address written for a target gives that target back, for every target
/// whose address parts are of the right length and whose host name holds no `/`.
pub proof fn lemma_parse_format_round_trip(t: TargetView)
    requires
        target_well_formed(t),
    ensures
        parse_target(format_target(t)) == Ok::<TargetView, TcpStreamTargetParseError>(t),
{
    lemma_literals();
    let segs = segments_of(t);
    match t {
        TargetView::Port(p) => lemma_port_round_trip(p),
        TargetView::V4(a, p) => {
            lemma_port_round_trip(p);
            lemma_ipv4_round_trip(a);
        },
        TargetView::V6(a, p) => {
            lemma_port_round_trip(p);
            lemma_ipv6_round_trip(a);
        },
        TargetView::Dns(c, h, p) => lemma_port_round_trip(p),
    }
    assert forall|i: int| 0 <= i < segs.len() implies !(#[trigger] segs[i]).contains('/') by {
        if i == 0 {
            assert(segs[0] =~= Seq::<char>::empty());
        }
    }
    lemma_split_joined(segs, 5, '/');
    let mid = segs.subrange(1, segs.len() - 1);
    match t {
        TargetView::Port(p) => {
            assert(mid =~= seq![lit_tcp()]);
        },
        _ => {
            assert(mid.len() == 3);
            assert(mid != seq![lit_tcp()]);
        },
    }
}

fn read_port(v: &Vec<char>) -> (r: Option<u16>)
    ensures
        r is Some <==> port_of(v@) is Some,
        r is Some ==> r->0 as nat == port_of(v@)->0,
{
    let digits = if v.len() > 0 && v[0] == '+' {
        slice_chars(v, 1, v.len())
    } else {
        slice_chars(v, 0, v.len())
    };
    assert(v@.subrange(0, v@.len() as int) =~= v@);
    assert(v@.len() > 0 ==> v@.subrange(1, v@.len() as int) =~= v@.skip(1));
    match read_numeral(&digits, 10, 65535) {
        Some(n) => Some(n as u16),
        None => None,
    }
}

fn read_octet(v: &Vec<char>) -> (r: Option<u8>)
    ensures
        r is Some <==> octet_of(v@) is Some,
        r is Some ==> r->0 as nat == octet_of(v@)->0,
{
    if v.len() <= 3 && !(v.len() > 1 && v[0] == '0') {
        match read_numeral(v, 10, 255) {
            Some(n) => Some(n as u8),
            None => None,
        }
    } else {
        None
    }
}

fn read_group(v: &Vec<char>) -> (r: Option<u16>)
    ensures
        r is Some <==> group_of(v@) is Some,
        r is Some ==> r->0 as nat == group_of(v@)->0,
{
    if v.len() <= 4 {
        match read_numeral(v, 16, 65535) {
            Some(n) => Some(n as u16),
            None => None,
        }
    } else {
        None
    }
}

fn read_ipv4(v: &Vec<char>) -> (r: Option<[u8; 4]>)
    ensures
        r is Some <==> ipv4_of(v@) is Some,
        r is Some ==> r->0@ == ipv4_of(v@)->0,
{
    let parts = split_chars(v, 5, '.');
    let ghost p = splitn(v@, 5, '.');
    assert(views(parts@).len() == parts@.len());
    if parts.len() != 4 {
        return None;
    }
    let mut vals: Vec<u8> = Vec::new();
    for i in 0..4
        invariant
            parts@.len() == 4,
            views(parts@) == p,
            p == splitn(v@, 5, '.'),
            vals@.len() == i,
            forall|j: int| 0 <= j < i ==> (#[trigger] octet_of(p[j])) is Some && vals@[j] as nat == octet_of(p[j])->0,
    {
        assert(p[i as int] == parts@[i as int]@);
        match read_octet(&parts[i]) {
            Some(o) => vals.push(o),
            None => {
                assert(octet_of(p[i as int]) is None);
                return None;
            },
        }
    }
    let a: [u8; 4] = [vals[0], vals[1], vals[2], vals[3]];
    assert(a@ =~= Seq::new(4, |i: int| octet_of(p[i])->0 as u8));
    Some(a)
}

proof fn lemma_double_colon_at(s: Seq<char>, i: int)
    requires
        0 <= i,
        i + 1 < s.len(),
        s[i] == ':' && s[i + 1] == ':',
        forall|j: int| 0 <= j < i ==> !(#[trigger] s[j] == ':' && s[j + 1] == ':'),
    ensures
        find_double_colon(s) == i,
    decreases i,
{
    if i > 0 {
        let t = s.skip(1);
        assert forall|j: int| 0 <= j < i - 1 implies !(#[trigger] t[j] == ':' && t[j + 1] == ':') by {
            assert(t[j] == s[j + 1] && t[j + 1] == s[j + 2]);
        }
        assert(!(s[0] == ':' && s[1] == ':'));
        lemma_double_colon_at(t, i - 1);
    }
}

proof fn lemma_double_colon_bound(s: Seq<char>)
    ensures
        find_double_colon(s) <= s.len(),
        find_double_colon(s) < s.len() ==> find_double_colon(s) + 1 < s.len(),
    decreases s.len(),
{
    if s.len() >= 2 && !(s[0] == ':' && s[1] == ':') {
        lemma_double_colon_bound(s.skip(1));
    }
}

/// Position of the first `::` in `v`, or its length where it has none.
fn find_double_colon_chars(v: &Vec<char>) -> (r: usize)
    ensures
        r == find_double_colon(v@),
{
    let mut i: usize = 0;
    while i < v.len() && v.len() - i > 1
        invariant
            i <= v@.len(),
            forall|j: int| 0 <= j < i && j + 1 < v@.len() ==> !(#[trigger] v@[j] == ':' && v@[j + 1] == ':'),
        decreases v@.len() - i,
    {
        if v[i] == ':' && v[i + 1] == ':' {
            proof {
                lemma_double_colon_at(v@, i as int);
            }
            return i;
        }
        i = i + 1;
    }
    proof {
        lemma_double_colon_absent(v@);
    }
    v.len()
}

/// The group values on one side of a `::`, where every group is valid.
fn read_side(v: &Vec<char>) -> (r: Option<Vec<u16>>)
    ensures
        r is Some <==> groups_valid(side_groups(v@)),
        r is Some ==> r->0@ == group_values(side_groups(v@)),
{
    let mut vals: Vec<u16> = Vec::new();
    if v.len() == 0 {
        assert(vals@ =~= group_values(side_groups(v@)));
        return Some(vals);
    }
    let parts = split_chars(v, 9, ':');
    let ghost p = splitn(v@, 9, ':');
    assert(views(parts@).len() == parts@.len());
    for i in 0..parts.len()
        invariant
            views(parts@) == p,
            p == side_groups(v@),
            p.len() == parts@.len(),
            vals@.len() == i,
            forall|j: int| 0 <= j < i ==> (#[trigger] group_of(p[j])) is Some && vals@[j] == group_of(p[j])->0 as u16,
    {
        assert(p[i as int] == parts@[i as int]@);
        match read_group(&parts[i]) {
            Some(g) => vals.push(g),
            None => {
                assert(group_of(p[i as int]) is None);
                return None;
            },
        }
    }
    assert(vals@ =~= group_values(p));
    Some(vals)
}

/// `l`, then zero groups up to eight in all, then `r`.
fn expand_groups(l: &Vec<u16>, r: &Vec<u16>) -> (out: Vec<u16>)
    requires
        l@.len() + r@.len() <= 7,
    ensures
        out@ == l@ + Seq::new((8 - l@.len() - r@.len()) as nat, |x: int| 0u16) + r@,
        out@.len() == 8,
{
    let zeros = 8 - l.len() - r.len();
    let mut out: Vec<u16> = Vec::new();
    for i in 0..l.len()
        invariant
            out@ == l@.take(i as int),
    {
        out.push(l[i]);
        assert(out@ =~= l@.take(i + 1));
    }
    assert(l@.take(l@.len() as int) =~= l@);
    for i in 0..zeros
        invariant
            out@ == l@ + Seq::new(i as nat, |x: int| 0u16),
    {
        out.push(0);
        assert(out@ =~= l@ + Seq::new((i + 1) as nat, |x: int| 0u16));
    }
    let ghost mid = out@;
    for i in 0..r.len()
        invariant
            out@ == mid + r@.take(i as int),
    {
        out.push(r[i]);
        assert(out@ =~= mid + r@.take(i + 1));
    }
    assert(r@.take(r@.len() as int) =~= r@);
    out
}

/// The groups of an address with a `::` at `k`.
/// The values of a run of groups, where the last may be a dotted IPv4 address.
fn read_run(v: &Vec<char>) -> (r: Option<Vec<u16>>)
    ensures
        r is Some <==> run_values(side_groups(v@)) is Some,
        r is Some ==> r->0@ == run_values(side_groups(v@))->0,
{
    let mut vals: Vec<u16> = Vec::new();
    if v.len() == 0 {
        return Some(vals);
    }
    let parts = split_chars(v, 9, ':');
    let ghost p = splitn(v@, 9, ':');
    proof {
        lemma_splitn_nonempty(v@, 9, ':');
    }
    assert(views(parts@).len() == parts@.len());
    let n = parts.len();
    let ghost init = p.drop_last();
    for i in 0..n - 1
        invariant
            views(parts@) == p,
            p == side_groups(v@),
            p.len() == parts@.len(),
            n == parts@.len(),
            n >= 1,
            init == p.drop_last(),
            vals@.len() == i,
            forall|j: int| 0 <= j < i ==> (#[trigger] group_of(init[j])) is Some && vals@[j] == group_of(init[j])->0 as u16,
    {
        assert(init[i as int] == parts@[i as int]@);
        match read_group(&parts[i]) {
            Some(g) => vals.push(g),
            None => {
                assert(group_of(init[i as int]) is None);
                return None;
            },
        }
    }
    assert(vals@ =~= group_values(init));
    assert(p.last() == parts@[n - 1]@);
    match read_group(&parts[n - 1]) {
        Some(g) => {
            vals.push(g);
            Some(vals)
        },
        None => match read_ipv4(&parts[n - 1]) {
            Some(a) => {
                let high = (a[0] as u16) * 256 + (a[1] as u16);
                let low = (a[2] as u16) * 256 + (a[3] as u16);
                vals.push(high);
                vals.push(low);
                assert(vals@ =~= group_values(init) + ipv4_groups(a@));
                Some(vals)
            },
            None => None,
        },
    }
}

fn read_compressed(v: &Vec<char>, k: usize) -> (r: Option<Vec<u16>>)
    requires
        k == find_double_colon(v@),
        k < v@.len(),
    ensures
        r is Some <==> ipv6_of(v@) is Some,
        r is Some ==> r->0@ == ipv6_of(v@)->0,
{
    proof {
        lemma_double_colon_bound(v@);
    }
    let n = v.len();
    assert(k + 1 < n);
    let left = slice_chars(v, 0, k);
    let right = slice_chars(v, k + 2, n);
    assert(left@ =~= v@.take(k as int));
    assert(right@ =~= v@.skip(k + 2int));
    let r = match read_run(&right) {
        Some(r) => r,
        None => return None,
    };
    let l = match read_side(&left) {
        Some(l) => l,
        None => {
            assert(run_values(side_groups(right@)) is Some);
            return None;
        },
    };
    if l.len() > 7 || r.len() > 7 - l.len() {
        return None;
    }
    Some(expand_groups(&l, &r))
}

fn read_ipv6(v: &Vec<char>) -> (r: Option<[u16; 8]>)
    ensures
        r is Some <==> ipv6_of(v@) is Some,
        r is Some ==> r->0@ == ipv6_of(v@)->0,
{
    let k = find_double_colon_chars(v);
    proof {
        lemma_double_colon_bound(v@);
        lemma_splitn_nonempty(v@, 9, ':');
    }
    let vals = if k >= v.len() {
        let g = match read_run(v) {
            Some(g) => g,
            None => return None,
        };
        if g.len() != 8 {
            return None;
        }
        g
    } else {
        match read_compressed(v, k) {
            Some(g) => g,
            None => return None,
        }
    };
    let a: [u16; 8] = [vals[0], vals[1], vals[2], vals[3], vals[4], vals[5], vals[6], vals[7]];
    assert(a@ =~= vals@);
    Some(a)
}

impl TcpStreamTarget {
    /// Reads a route address; see `parse_target` for the grammar.
    pub fn parse(s: &str) -> (r: Result<TcpStreamTarget, TcpStreamTargetParseError>)
        ensures
            match r {
                Ok(t) => parse_target(s@) == Ok::<TargetView, TcpStreamTargetParseError>(t@),
                Err(e) => parse_target(s@) == Err::<TargetView, TcpStreamTargetParseError>(e),
            },
    {
        let v = chars_of(s);
        let parts = split_chars(&v, 5, '/');
        let ghost p = splitn(v@, 5, '/');
        proof {
            lemma_splitn_nonempty(v@, 5, '/');
        }
        assert(views(parts@).len() == parts@.len());
        assert(p[0] == parts@[0]@);
        if parts[0].len() != 0 {
            return Err(TcpStreamTargetParseError::InvalidPrefix);
        }
        let n = parts.len();
        if n < 2 {
            return Err(TcpStreamTargetParseError::TooFewSegments);
        }
        assert(p.last() == parts@[n - 1]@);
        let port = match read_port(&parts[n - 1]) {
            Some(port) => port,
            None => return Err(TcpStreamTargetParseError::InvalidPort),
        };
        let ghost mid = p.subrange(1, p.len() - 1);
        let tcp = vec!['t', 'c', 'p'];
        if n == 3 {
            assert(mid[0] == parts@[1]@);
            if same_chars(&parts[1], &tcp) {
                assert(mid =~= seq![lit_tcp()]);
                return Ok(TcpStreamTarget::Port(port));
            }
            assert(mid != seq![lit_tcp()]);
            return Err(TcpStreamTargetParseError::NoMatchingFormat);
        }
        if n != 5 {
            assert(mid.len() != 3 && mid.len() != 1);
            return Err(TcpStreamTargetParseError::NoMatchingFormat);
        }
        assert(mid[0] == parts@[1]@ && mid[1] == parts@[2]@ && mid[2] == parts@[3]@);
        assert(mid.len() == 3 && seq![lit_tcp()].len() == 1);
        if !same_chars(&parts[3], &tcp) {
            return Err(TcpStreamTargetParseError::NoMatchingFormat);
        }
        let kind = &parts[1];
        if same_chars(kind, &vec!['i', 'p', '4']) {
            return match read_ipv4(&parts[2]) {
                Some(octets) => Ok(TcpStreamTarget::SocketAddr(SocketAddress::V4 { octets, port })),
                None => Err(TcpStreamTargetParseError::InvalidIP),
            };
        }
        if same_chars(kind, &vec!['i', 'p', '6']) {
            return match read_ipv6(&parts[2]) {
                Some(segments) => Ok(TcpStreamTarget::SocketAddr(SocketAddress::V6 { segments, port })),
                None => Err(TcpStreamTargetParseError::InvalidIP),
            };
        }
        let host = string_from_chars(&parts[2]);
        if same_chars(kind, &vec!['d', 'n', 's']) {
            return Ok(TcpStreamTarget::Dns(DnsTarget::PreferHigher { host, port }));
        }
        if same_chars(kind, &vec!['d', 'n', 's', '4']) {
            return Ok(TcpStreamTarget::Dns(DnsTarget::Dns4 { host, port }));
        }
        if same_chars(kind, &vec!['d', 'n', 's', '6']) {
            return Ok(TcpStreamTarget::Dns(DnsTarget::Dns6 { host, port }));
        }
        Err(TcpStreamTargetParseError::NoMatchingFormat)
    }
}

fn ipv4_chars(a: &[u8; 4]) -> (r: Vec<char>)
    ensures
        r@ == ipv4_text(a@),
{
    let mut parts: Vec<Vec<char>> = Vec::new();
    for i in 0..4
        invariant
            parts@.len() == i,
            forall|j: int| 0 <= j < i ==> (#[trigger] parts@[j])@ == decimal(a@[j] as nat),
    {
        parts.push(decimal_chars(a[i] as u32));
    }
    assert(views(parts@).skip(0) =~= Seq::new(4, |i: int| decimal(a@[i] as nat)));
    join_chars(&parts, 0, '.')
}

/// Groups `lo` up to `hi` of `a` in hexadecimal, separated by `:`.
fn hex_groups_chars(a: &[u16; 8], lo: usize, hi: usize) -> (r: Vec<char>)
    requires
        lo <= hi <= 8,
    ensures
        r@ == hex_groups_text(a@.subrange(lo as int, hi as int)),
{
    let ghost g = a@.subrange(lo as int, hi as int);
    let mut parts: Vec<Vec<char>> = Vec::new();
    for i in lo..hi
        invariant
            lo <= hi <= 8,
            g == a@.subrange(lo as int, hi as int),
            parts@.len() == i - lo,
            forall|j: int| 0 <= j < i - lo ==> (#[trigger] parts@[j])@ == hexadecimal(g[j] as nat),
    {
        parts.push(hexadecimal_chars(a[i] as u32));
    }
    assert(views(parts@).skip(0) =~= Seq::new(g.len(), |i: int| hexadecimal(g[i] as nat)));
    join_chars(&parts, 0, ':')
}

/// Start and length of the longest run of zero groups, the first where several are as long.
fn zero_run_of(a: &[u16; 8]) -> (r: (usize, usize))
    ensures
        r.0 as int == zero_run(a@).0,
        r.1 as int == zero_run(a@).1,
        r.0 + r.1 <= 8,
{
    let mut cs: usize = 0;
    let mut cl: usize = 0;
    let mut bs: usize = 0;
    let mut bl: usize = 0;
    for i in 0..8
        invariant
            cl <= i,
            cs <= i,
            bl <= i,
            bs <= i,
            scan_zeros(a@, i as int, cs as int, cl as int, bs as int, bl as int) == zero_run(a@),
    {
        if a[i] == 0 {
            let ncs = if cl == 0 { i } else { cs };
            if cl + 1 > bl {
                bs = ncs;
                bl = cl + 1;
            }
            cs = ncs;
            cl = cl + 1;
        } else {
            cs = 0;
            cl = 0;
        }
    }
    proof {
        lemma_scan_zeros(a@, 0, 0, 0, 0, 0);
    }
    (bs, bl)
}

fn ipv6_chars(a: &[u16; 8]) -> (r: Vec<char>)
    ensures
        r@ == ipv6_text(a@),
{
    if a[0] == 0 && a[1] == 0 && a[2] == 0 && a[3] == 0 && a[4] == 0 && a[5] == 0xffff {
        let octets: [u8; 4] = [(a[6] / 256) as u8, (a[6] % 256) as u8, (a[7] / 256) as u8, (a[7] % 256) as u8];
        assert(octets@ =~= mapped_octets(a@));
        let mut v = vec![':', ':', 'f', 'f', 'f', 'f', ':'];
        let tail = ipv4_chars(&octets);
        push_all(&mut v, &tail);
        return v;
    }
    let (start, len) = zero_run_of(a);
    if len > 1 {
        let mut v = hex_groups_chars(a, 0, start);
        v.push(':');
        v.push(':');
        let tail = hex_groups_chars(a, start + len, 8);
        push_all(&mut v, &tail);
        assert(a@.subrange(0, start as int) =~= a@.take(start as int));
        assert(a@.subrange((start + len) as int, 8) =~= a@.skip((start + len) as int));
        assert(v@ =~= compressed_text(a@, start as int, len as int));
        v
    } else {
        let v = hex_groups_chars(a, 0, 8);
        assert(a@.subrange(0, 8) =~= a@);
        v
    }
}

impl TcpStreamTarget {
    /// The route address of this target; see `format_target` for its shape.
    pub fn to_string(&self) -> (r: String)
        ensures
            r@ == format_target(self@),
    {
        let mut segs: Vec<Vec<char>> = Vec::new();
        segs.push(Vec::new());
        let port = match self {
            TcpStreamTarget::Port(port) => {
                segs.push(vec!['t', 'c', 'p']);
                *port
            },
            TcpStreamTarget::SocketAddr(SocketAddress::V4 { octets, port }) => {
                segs.push(vec!['i', 'p', '4']);
                segs.push(ipv4_chars(octets));
                segs.push(vec!['t', 'c', 'p']);
                *port
            },
            TcpStreamTarget::SocketAddr(SocketAddress::V6 { segments, port }) => {
                segs.push(vec!['i', 'p', '6']);
                segs.push(ipv6_chars(segments));
                segs.push(vec!['t', 'c', 'p']);
                *port
            },
            TcpStreamTarget::Dns(d) => {
                let (keyword, host, port) = match d {
                    DnsTarget::PreferHigher { host, port } => (vec!['d', 'n', 's'], host, *port),
                    DnsTarget::Dns4 { host, port } => (vec!['d', 'n', 's', '4'], host, *port),
                    DnsTarget::Dns6 { host, port } => (vec!['d', 'n', 's', '6'], host, *port),
                };
                segs.push(keyword);
                segs.push(chars_of(host.as_str()));
                segs.push(vec!['t', 'c', 'p']);
                port
            },
        };
        segs.push(decimal_chars(port as u32));
        assert(views(segs@).skip(0) =~= segments_of(self@));
        let v = join_chars(&segs, 0, '/');
        string_from_chars(&v)
    }
}

impl DnsTarget {
    pub fn includes_ipv6(&self) -> (r: bool)
        ensures
            r == !(self is Dns4),
    {
        match self {
            DnsTarget::PreferHigher { .. } => true,
            DnsTarget::Dns6 { .. } => true,
            DnsTarget::Dns4 { .. } => false,
        }
    }

    pub fn includes_ipv4(&self) -> (r: bool)
        ensures
            r == !(self is Dns6),
    {
        match self {
            DnsTarget::PreferHigher { .. } => true,
            DnsTarget::Dns6 { .. } => false,
            DnsTarget::Dns4 { .. } => true,
        }
    }

    /// The port the name is to be reached on.
    pub fn port(&self) -> (r: Option<u16>)
        ensures
            r == Some(self.port_spec()),
    {
        match self {
            DnsTarget::PreferHigher { port, .. } => Some(*port),
            DnsTarget::Dns6 { port, .. } => Some(*port),
            DnsTarget::Dns4 { port, .. } => Some(*port),
        }
    }

    /// Whether a resolved address belongs to this name's address families, and, where
    /// `check_port` holds, carries its port.
    pub fn contains(&self, addr: &SocketAddress, check_port: bool) -> (r: bool)
        ensures
            r == ((!check_port || addr.port_spec() == self.port_spec()) && (
            addr is V6 && !(self is Dns4) || addr is V4 && !(self is Dns6))),
    {
        if check_port && addr.port() != self.port_spec_exec() {
            false
        } else {
            addr.is_ipv6() && self.includes_ipv6() || addr.is_ipv4() && self.includes_ipv4()
        }
    }

    fn port_spec_exec(&self) -> (r: u16)
        ensures
            r == self.port_spec(),
    {
        match self {
            DnsTarget::PreferHigher { port, .. } => *port,
            DnsTarget::Dns6 { port, .. } => *port,
            DnsTarget::Dns4 { port, .. } => *port,
        }
    }
}

impl SocketAddress {
    pub open spec fn port_spec(&self) -> u16 {
        match self {
            SocketAddress::V4 { port, .. } => *port,
            SocketAddress::V6 { port, .. } => *port,
        }
    }

    /// IPv4 addresses in 127.0.0.0/8, and the IPv6 address `::1`.
    pub open spec fn is_loopback_spec(&self) -> bool {
        match self {
            SocketAddress::V4 { octets, .. } => octets@[0] == 127,
            SocketAddress::V6 { segments, .. } => segments@ == seq![0u16, 0, 0, 0, 0, 0, 0, 1],
        }
    }

    pub fn port(&self) -> (r: u16)
        ensures
            r == self.port_spec(),
    {
        match self {
            SocketAddress::V4 { port, .. } => *port,
            SocketAddress::V6 { port, .. } => *port,
        }
    }

    pub fn is_ipv4(&self) -> (r: bool)
        ensures
            r == self is V4,
    {
        match self {
            SocketAddress::V4 { .. } => true,
            SocketAddress::V6 { .. } => false,
        }
    }

    pub fn is_ipv6(&self) -> (r: bool)
        ensures
            r == self is V6,
    {
        match self {
            SocketAddress::V4 { .. } => false,
            SocketAddress::V6 { .. } => true,
        }
    }

    pub fn is_loopback(&self) -> (r: bool)
        ensures
            r == self.is_loopback_spec(),
    {
        match self {
            SocketAddress::V4 { octets, .. } => octets[0] == 127,
            SocketAddress::V6 { segments, .. } => {
                let mut all = true;
                for i in 0..8
                    invariant
                        all == (forall|j: int| 0 <= j < i ==> segments@[j] == (if j == 7 { 1u16 } else { 0u16 })),
                {
                    let want: u16 = if i == 7 { 1 } else { 0 };
                    all = all && segments[i] == want;
                }
                assert(all == (segments@ =~= seq![0u16, 0, 0, 0, 0, 0, 0, 1]));
                all
            },
        }
    }
}

/// A name lookup that failed, with the resolver's message.
#[derive(Debug)]
pub enum TargetResolutionError {
    IOError(String),
}

/// Why no connection could be attempted.
#[derive(Debug, Clone, Copy, PartialEq, Eq)]
pub enum TcpConnectError {
    ConnectionFailed,
    NoLoopbackAddressesFound,
}

/// The service error a connection failure is reported as.
pub open spec fn connect_failure_spec(e: TcpConnectError) -> ServiceError {
    match e {
        TcpConnectError::ConnectionFailed => ServiceError::DependencyFailure,
        TcpConnectError::NoLoopbackAddressesFound => ServiceError::AddressError,
    }
}

pub fn connect_failure(e: TcpConnectError) -> (r: ServiceError)
    ensures
        r == connect_failure_spec(e),
{
    match e {
        TcpConnectError::ConnectionFailed => ServiceError::DependencyFailure,
        TcpConnectError::NoLoopbackAddressesFound => ServiceError::AddressError,
    }
}

/// The loopback addresses a bare port stands for, IPv6 first.
pub open spec fn loopback_pair(port: u16) -> Seq<SocketAddress> {
    seq![
        SocketAddress::V6 { segments: [0u16, 0, 0, 0, 0, 0, 0, 1], port },
        SocketAddress::V4 { octets: [127u8, 0, 0, 1], port },
    ]
}

/// A service that proxies sub-streams to TCP connections.
#[derive(Debug)]
pub struct TcpStreamService {
    pub local_only: bool,
}

impl TcpStreamService {
    pub fn new(local_only: bool) -> (r: Self)
        ensures
            r.local_only == local_only,
    {
        Self { local_only }
    }

    /// Accepts exactly the addresses that read as a TCP target.
    pub fn accepts(&self, addr: &String, tunnel_id: &TunnelId) -> (r: bool)
        ensures
            r == parse_target(addr@) is Ok,
    {
        TcpStreamTarget::parse(addr.as_str()).is_ok()
    }

    /// The target a sub-stream's address asks for; an address that does not read as one is
    /// an address error.
    pub fn service_target(addr: &String) -> (r: Result<TcpStreamTarget, ServiceError>)
        ensures
            match r {
                Ok(t) => parse_target(addr@) == Ok::<TargetView, TcpStreamTargetParseError>(t@),
                Err(e) => parse_target(addr@) is Err && e is AddressError,
            },
    {
        match TcpStreamTarget::parse(addr.as_str()) {
            Ok(t) => Ok(t),
            Err(_) => Err(ServiceError::AddressError),
        }
    }

    /// A failed name lookup is an address error.
    pub fn resolution_failure(e: TargetResolutionError) -> (r: ServiceError)
        ensures
            r is AddressError,
    {
        ServiceError::AddressError
    }

    /// The addresses a target stands for without a name lookup: a bare port is the loopback
    /// pair, a socket address is itself. A DNS target is handed back for lookup.
    pub fn resolve_fixed(&self, target: TcpStreamTarget) -> (r: Result<Vec<SocketAddress>, DnsTarget>)
        ensures
            match target {
                TcpStreamTarget::Port(p) => r is Ok && r->Ok_0@ == loopback_pair(p),
                TcpStreamTarget::SocketAddr(s) => r is Ok && r->Ok_0@ == seq![s],
                TcpStreamTarget::Dns(d) => r == Err::<Vec<SocketAddress>, DnsTarget>(d),
            },
    {
        match target {
            TcpStreamTarget::Port(port) => {
                let v = vec![
                    SocketAddress::V6 { segments: [0u16, 0, 0, 0, 0, 0, 0, 1], port },
                    SocketAddress::V4 { octets: [127u8, 0, 0, 1], port },
                ];
                Ok(v)
            },
            TcpStreamTarget::SocketAddr(s) => Ok(vec![s]),
            TcpStreamTarget::Dns(d) => Err(d),
        }
    }

    /// Keeps the looked-up addresses that match the name's families and port, in order.
    pub fn filter_resolved(target: &DnsTarget, found: &Vec<SocketAddress>) -> (r: Vec<SocketAddress>)
        ensures
            r@ == found@.filter(|a: SocketAddress| dns_admits(*target, a)),
    {
        let mut out: Vec<SocketAddress> = Vec::new();
        for i in 0..found.len()
            invariant
                out@ == found@.take(i as int).filter(|a: SocketAddress| dns_admits(*target, a)),
        {
            let a = found[i];
            proof {
                assert(found@.take(i + 1) =~= found@.take(i as int).push(a));
                found@.take(i as int).lemma_filter_push(a, |a: SocketAddress| dns_admits(*target, a));
            }
            if target.contains(&a, true) {
                out.push(a);
            }
        }
        assert(found@.take(found@.len() as int) =~= found@);
        out
    }

    /// The addresses to try connecting to. With `local_only`, only the loopback ones, and
    /// where none is left (an empty list included) that is an address error. Otherwise all
    /// of them, and an empty list is a failed connection.
    pub fn select_connect_addresses(&self, addrs: &Vec<SocketAddress>) -> (r: Result<
        Vec<SocketAddress>,
        TcpConnectError,
    >)
        ensures
            addrs@.len() == 0 && !self.local_only ==> r == Err::<Vec<SocketAddress>, _>(
                TcpConnectError::ConnectionFailed,
            ),
            addrs@.len() > 0 && !self.local_only ==> r is Ok && r->Ok_0@ == addrs@,
            self.local_only ==> {
                let kept = addrs@.filter(|a: SocketAddress| a.is_loopback_spec());
                &&& kept.len() == 0 ==> r == Err::<Vec<SocketAddress>, _>(
                    TcpConnectError::NoLoopbackAddressesFound,
                )
                &&& kept.len() > 0 ==> r is Ok && r->Ok_0@ == kept
            },
    {
        if addrs.len() == 0 && !self.local_only {
            return Err(TcpConnectError::ConnectionFailed);
        }
        let mut out: Vec<SocketAddress> = Vec::new();
        for i in 0..addrs.len()
            invariant
                self.local_only ==> out@ == addrs@.take(i as int).filter(|a: SocketAddress| a.is_loopback_spec()),
                !self.local_only ==> out@ == addrs@.take(i as int),
        {
            let a = addrs[i];
            proof {
                assert(addrs@.take(i + 1) =~= addrs@.take(i as int).push(a));
                addrs@.take(i as int).lemma_filter_push(a, |a: SocketAddress| a.is_loopback_spec());
            }
            if !self.local_only || a.is_loopback() {
                out.push(a);
            }
        }
        assert(addrs@.take(addrs@.len() as int) =~= addrs@);
        if out.len() == 0 {
            return Err(TcpConnectError::NoLoopbackAddressesFound);
        }
        Ok(out)
    }
}

/// A resolved address that a DNS target admits: of its families, on its port.
pub open spec fn dns_admits(target: DnsTarget, a: SocketAddress) -> bool {
    a.port_spec() == target.port_spec() && (a is V6 && !(target is Dns4) || a is V4 && !(
    target is Dns6))
}

/// The client side of the TCP proxy: bytes read from `recv` go out on the sub-stream, and
/// bytes from the sub-stream are written to `send`.
#[derive(Debug, Clone)]
pub struct TcpStreamClient<Reader, Writer> {
    pub recv: Reader,
    pub send: Writer,
}

impl<Reader, Writer> TcpStreamClient<Reader, Writer> {
    pub fn new(recv: Reader, send: Writer) -> (r: Self)
        ensures
            r.recv == recv,
            r.send == send,
    {
        Self { recv, send }
    }

    /// The route address that asks a peer's proxy service for `target`.
    pub fn build_addr(target: TcpStreamTarget) -> (r: String)
        ensures
            r@ == format_target(target@),
    {
        target.to_string()
    }
}

impl std::str::FromStr for TcpStreamTarget {
    type Err = TcpStreamTargetParseError;

    fn from_str(s: &str) -> (r: Result<TcpStreamTarget, TcpStreamTargetParseError>)
        ensures
            match r {
                Ok(t) => parse_target(s@) == Ok::<TargetView, TcpStreamTargetParseError>(t@),
                Err(e) => parse_target(s@) == Err::<TargetView, TcpStreamTargetParseError>(e),
            },
    {
        TcpStreamTarget::parse(s)
    }
}

} // verus!

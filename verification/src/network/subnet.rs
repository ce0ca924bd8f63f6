//! IP addresses of the local machine and the "same subnet" relation (same /24 for IPv4).
use vstd::prelude::*;

verus! {

/// An IPv4 address.
#[derive(Clone, Copy, Debug)]
pub struct Ipv4Addr {
    pub octets: [u8; 4],
}

/// An IPv6 address, as its eight 16-bit segments.
#[derive(Clone, Copy, Debug)]
pub struct Ipv6Addr {
    pub segments: [u16; 8],
}

/// An IP address of either version.
#[derive(Clone, Copy, Debug)]
pub enum IpAddr {
    V4(Ipv4Addr),
    V6(Ipv6Addr),
}

/// The error of parsing text that is not an IP address.
#[derive(Clone, Copy, Debug)]
pub struct AddrParseError;

impl Ipv4Addr {
    /// The address `a.b.c.d`.
    pub fn new(a: u8, b: u8, c: u8, d: u8) -> (r: Ipv4Addr)
        ensures
            r.octets@ == seq![a, b, c, d],
    {
        let r = Ipv4Addr { octets: [a, b, c, d] };
        assert(r.octets@ =~= seq![a, b, c, d]);
        r
    }

    /// The four octets, most significant first.
    pub fn octets(&self) -> (r: [u8; 4])
        ensures
            r@ == self.octets@,
    {
        self.octets
    }
}

impl Ipv6Addr {
    /// The eight segments, most significant first.
    pub fn segments(&self) -> (r: [u16; 8])
        ensures
            r@ == self.segments@,
    {
        self.segments
    }
}

/// `127.0.0.0/8` for IPv4 and `::1` for IPv6.
pub open spec fn loopback(ip: IpAddr) -> bool {
    match ip {
        IpAddr::V4(a) => a.octets@[0] == 127,
        IpAddr::V6(a) => forall|i: int| 0 <= i < 8 ==> a.segments@[i] == (if i == 7 { 1u16 } else { 0u16 }),
    }
}

/// `0.0.0.0` for IPv4 and `::` for IPv6.
pub open spec fn unspecified(ip: IpAddr) -> bool {
    match ip {
        IpAddr::V4(a) => forall|i: int| 0 <= i < 4 ==> a.octets@[i] == 0,
        IpAddr::V6(a) => forall|i: int| 0 <= i < 8 ==> a.segments@[i] == 0,
    }
}

impl IpAddr {
    /// Whether this is a loopback address.
    pub fn is_loopback(&self) -> (r: bool)
        ensures
            r == loopback(*self),
    {
        match self {
            IpAddr::V4(a) => a.octets[0] == 127,
            IpAddr::V6(a) => {
                let s = a.segments;
                let r = s[0] == 0 && s[1] == 0 && s[2] == 0 && s[3] == 0 && s[4] == 0 && s[5] == 0
                    && s[6] == 0 && s[7] == 1;
                assert(r == loopback(*self)) by {
                    if r {
                        assert forall|i: int| 0 <= i < 8 implies a.segments@[i] == (if i == 7 { 1u16 } else { 0u16 }) by {
                            assert(s@ == a.segments@);
                        }
                    } else {
                        assert(s@ == a.segments@);
                    }
                }
                r
            },
        }
    }

    /// Whether this is the unspecified address.
    pub fn is_unspecified(&self) -> (r: bool)
        ensures
            r == unspecified(*self),
    {
        match self {
            IpAddr::V4(a) => {
                let o = a.octets;
                let r = o[0] == 0 && o[1] == 0 && o[2] == 0 && o[3] == 0;
                assert(r == unspecified(*self)) by {
                    assert(o@ == a.octets@);
                    if r {
                        assert forall|i: int| 0 <= i < 4 implies a.octets@[i] == 0 by {}
                    }
                }
                r
            },
            IpAddr::V6(a) => {
                let s = a.segments;
                let r = s[0] == 0 && s[1] == 0 && s[2] == 0 && s[3] == 0 && s[4] == 0 && s[5] == 0
                    && s[6] == 0 && s[7] == 0;
                assert(r == unspecified(*self)) by {
                    assert(s@ == a.segments@);
                    if r {
                        assert forall|i: int| 0 <= i < 8 implies a.segments@[i] == 0 by {}
                    }
                }
                r
            },
        }
    }

    /// Whether this is an IPv4 address.
    pub fn is_ipv4(&self) -> (r: bool)
        ensures
            r == (*self is V4),
    {
        match self {
            IpAddr::V4(_) => true,
            IpAddr::V6(_) => false,
        }
    }
}

/// Two IPv4 addresses whose first three octets agree (the same /24 network).
pub open spec fn same_class_c(a: Ipv4Addr, b: Ipv4Addr) -> bool {
    &&& a.octets@[0] == b.octets@[0]
    &&& a.octets@[1] == b.octets@[1]
    &&& a.octets@[2] == b.octets@[2]
}

/// Two addresses in the same subnet: both IPv4 and in the same /24; IPv6 never is.
pub open spec fn same_subnet(a: IpAddr, b: IpAddr) -> bool {
    match (a, b) {
        (IpAddr::V4(x), IpAddr::V4(y)) => same_class_c(x, y),
        _ => false,
    }
}

/// Whether two IPv4 addresses share their first three octets.
pub fn is_ipv4_same_class_c(a: Ipv4Addr, b: Ipv4Addr) -> (r: bool)
    ensures
        r == same_class_c(a, b),
{
    let x = a.octets;
    let y = b.octets;
    x[0] == y[0] && x[1] == y[1] && x[2] == y[2]
}

/// Whether two addresses are in the same subnet.
pub fn is_in_same_subnet(a: IpAddr, b: IpAddr) -> (r: bool)
    ensures
        r == same_subnet(a, b),
{
    match (a, b) {
        (IpAddr::V4(x), IpAddr::V4(y)) => is_ipv4_same_class_c(x, y),
        _ => false,
    }
}

/// The relation is symmetric.
pub proof fn lemma_same_subnet_symmetric(a: IpAddr, b: IpAddr)
    ensures
        same_subnet(a, b) == same_subnet(b, a),
{
}

/// What `str::parse::<core::net::IpAddr>` reads from a text.
pub uninterp spec fn parsed_ip(s: Seq<char>) -> Option<IpAddr>;

/// `str::parse::<core::net::IpAddr>`, converted to this module's type: `None` where
/// std refuses the text. The result is a function of the text; its grammar is not restated.
#[verifier::external_body]
pub(crate) fn parse_ip(s: &str) -> (r: Option<IpAddr>)
    ensures
        r == parsed_ip(s@),
{
    match s.parse::<core::net::IpAddr>() {
        Ok(core::net::IpAddr::V4(v)) => Some(IpAddr::V4(Ipv4Addr { octets: v.octets() })),
        Ok(core::net::IpAddr::V6(v)) => Some(IpAddr::V6(Ipv6Addr { segments: v.segments() })),
        Err(_) => None,
    }
}

impl core::str::FromStr for IpAddr {
    type Err = AddrParseError;

    /// The address the text names, as `str::parse::<core::net::IpAddr>` reads it;
    /// `AddrParseError` where that parse refuses the text.
    fn from_str(s: &str) -> (r: Result<IpAddr, AddrParseError>)
        ensures
            match parsed_ip(s@) {
                Some(ip) => r == Ok::<IpAddr, AddrParseError>(ip),
                None => r is Err,
            },
    {
        match parse_ip(s) {
            Some(ip) => Ok(ip),
            None => Err(AddrParseError),
        }
    }
}

/// `local_ip_address::list_afinet_netifas`: the addresses of the machine's network
/// interfaces, or `None` where the crate reports an error. It depends on the machine,
/// so nothing is stated of it.
#[verifier::external_body]
fn interface_addresses() -> Option<Vec<IpAddr>> {
    let list = local_ip_address::list_afinet_netifas().ok()?;
    Some(list.into_iter().map(|(_, ip)| match ip {
        core::net::IpAddr::V4(v) => IpAddr::V4(Ipv4Addr { octets: v.octets() }),
        core::net::IpAddr::V6(v) => IpAddr::V6(Ipv6Addr { segments: v.segments() }),
    }).collect())
}

/// An address that can reach other hosts: neither loopback nor unspecified.
pub open spec fn usable(ip: IpAddr) -> bool {
    !loopback(ip) && !unspecified(ip)
}

/// The usable addresses of `s`, in order.
pub open spec fn usable_only(s: Seq<IpAddr>) -> Seq<IpAddr>
    decreases s.len(),
{
    if s.len() == 0 {
        Seq::empty()
    } else if usable(s.last()) {
        usable_only(s.drop_last()).push(s.last())
    } else {
        usable_only(s.drop_last())
    }
}

proof fn lemma_usable_only(s: Seq<IpAddr>)
    ensures
        forall|i: int| 0 <= i < usable_only(s).len() ==> usable(#[trigger] usable_only(s)[i]),
    decreases s.len(),
{
    if s.len() > 0 {
        lemma_usable_only(s.drop_last());
        let p = usable_only(s.drop_last());
        if usable(s.last()) {
            assert forall|i: int| 0 <= i < usable_only(s).len() implies usable(#[trigger] usable_only(s)[i]) by {
                if i < p.len() {
                    assert(usable_only(s)[i] == p[i]);
                }
            }
        }
    }
}

/// The addresses of `all` that are neither loopback nor unspecified, in order.
pub fn usable_addresses(all: &[IpAddr]) -> (r: Vec<IpAddr>)
    ensures
        r@ == usable_only(all@),
        forall|i: int| 0 <= i < r@.len() ==> usable(#[trigger] r@[i]),
{
    let mut out: Vec<IpAddr> = Vec::new();
    let mut i: usize = 0;
    assert(all@.take(0) =~= Seq::<IpAddr>::empty());
    while i < all.len()
        invariant
            i <= all@.len(),
            out@ == usable_only(all@.take(i as int)),
        decreases all@.len() - i,
    {
        let ip = all[i];
        assert(all@.take(i + 1).drop_last() =~= all@.take(i as int));
        assert(all@.take(i + 1).last() == ip);
        if !ip.is_loopback() && !ip.is_unspecified() {
            out.push(ip);
        }
        i = i + 1;
    }
    assert(all@.take(all@.len() as int) =~= all@);
    proof {
        lemma_usable_only(all@);
    }
    out
}

/// The machine's interface addresses that are neither loopback nor unspecified;
/// empty where the interfaces cannot be listed.
pub fn get_local_ips() -> (r: Vec<IpAddr>)
    ensures
        forall|i: int| 0 <= i < r@.len() ==> usable(#[trigger] r@[i]),
{
    match interface_addresses() {
        Some(all) => usable_addresses(all.as_slice()),
        None => Vec::new(),
    }
}

} // verus!

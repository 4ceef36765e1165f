//! Network addresses and errors.
use vstd::prelude::*;

verus! {

/// A 48-bit Ethernet MAC address.
pub type MacAddr = [u8; 6];

/// The broadcast MAC (ff:ff:ff:ff:ff:ff).
pub const MAC_BROADCAST: MacAddr = [0xFF, 0xFF, 0xFF, 0xFF, 0xFF, 0xFF];

/// A 32-bit IPv4 address in network byte order (big-endian octets).
#[derive(Clone, Copy, PartialEq, Eq, Debug)]
pub struct Ipv4Addr(pub [u8; 4]);

impl View for Ipv4Addr {
    type V = Seq<u8>;

    open spec fn view(&self) -> Seq<u8> {
        self.0@
    }
}

impl Ipv4Addr {
    /// Construct from four octets.
    pub fn new(a: u8, b: u8, c: u8, d: u8) -> (ip: Ipv4Addr)
        ensures
            ip@ == seq![a, b, c, d],
    {
        let ip = Ipv4Addr([a, b, c, d]);
        assert(ip@ =~= seq![a, b, c, d]);
        ip
    }

    /// The all-zeros address (0.0.0.0).
    pub fn unspecified() -> (ip: Ipv4Addr)
        ensures
            ip@ == seq![0u8, 0u8, 0u8, 0u8],
    {
        Ipv4Addr::new(0, 0, 0, 0)
    }

    /// The limited broadcast address (255.255.255.255).
    pub fn broadcast() -> (ip: Ipv4Addr)
        ensures
            ip@ == seq![255u8, 255u8, 255u8, 255u8],
    {
        Ipv4Addr::new(255, 255, 255, 255)
    }

    /// The raw octets.
    pub fn octets(self) -> (o: [u8; 4])
        ensures
            o@ == self@,
    {
        self.0
    }

    /// Whether two addresses are the same.
    pub fn same(self, other: Ipv4Addr) -> (r: bool)
        ensures
            r == (self@ == other@),
    {
        let a: [u8; 4] = self.0;
        let b: [u8; 4] = other.0;
        let r: bool = a[0] == b[0] && a[1] == b[1] && a[2] == b[2] && a[3] == b[3];
        proof {
            if r {
                assert(self@ =~= other@);
            }
        }
        r
    }
}

impl Default for Ipv4Addr {
    fn default() -> (ip: Ipv4Addr)
        ensures
            ip@ == seq![0u8, 0u8, 0u8, 0u8],
    {
        Ipv4Addr::unspecified()
    }
}

/// Errors from parsing/building protocol data units.
#[derive(Clone, Copy, PartialEq, Eq, Debug, Structural)]
pub enum NetError {
    /// The input slice was shorter than the protocol requires.
    Truncated,
    /// A header field was structurally invalid (e.g. bad IHL, version).
    Malformed,
    /// The output buffer was too small to build the PDU.
    BufferTooSmall,
    /// A checksum did not validate.
    BadChecksum,
    /// The protocol/ethertype is recognized but not implemented here (e.g. TCP).
    Unsupported,
}

/// An address has the octets it was made of, in their order, and is the same as another
/// exactly where each octet is.
pub proof fn addresses_go_by_their_octets(
    a: u8,
    b: u8,
    c: u8,
    d: u8,
    x: Ipv4Addr,
    o: [u8; 4],
    y: Ipv4Addr,
    same: bool,
    none: Ipv4Addr,
    all: Ipv4Addr,
)
    requires
        call_ensures(Ipv4Addr::new, (a, b, c, d), x),
        call_ensures(Ipv4Addr::octets, (x,), o),
        call_ensures(Ipv4Addr::same, (x, y), same),
        call_ensures(Ipv4Addr::unspecified, (), none),
        call_ensures(Ipv4Addr::broadcast, (), all),
    ensures
        o@[0] == a && o@[1] == b && o@[2] == c && o@[3] == d,
        same <==> y@[0] == a && y@[1] == b && y@[2] == c && y@[3] == d,
        forall|i: int| 0 <= i < 4 ==> #[trigger] none@[i] == 0,
        forall|i: int| 0 <= i < 4 ==> #[trigger] all@[i] == 0xff,
{
    if y@[0] == a && y@[1] == b && y@[2] == c && y@[3] == d {
        assert(y@ =~= x@);
    }
}

} // verus!

//! ARP (Address Resolution Protocol) -- resolve IPv4 -> MAC, with a small cache.
use vstd::prelude::*;
use crate::net::addr::{Ipv4Addr, MacAddr, NetError};
use crate::net::wire::{
    be16, be16_at, get_be16, get_ip, get_mac, lemma_be16, overlaid, push_be16, push_bytes,
    put_front,
};

pub mod oper;

verus! {

/// ARP packet length for IPv4-over-Ethernet (htype/ptype/hlen/plen/oper + 2x
/// (HW+proto) addresses = 28 bytes).
pub const ARP_LEN: usize = 28;

/// A parsed ARP packet (IPv4-over-Ethernet).
#[derive(Clone, Copy, Debug)]
pub struct ArpPacket {
    pub oper: u16,
    pub sender_mac: MacAddr,
    pub sender_ip: Ipv4Addr,
    pub target_mac: MacAddr,
    pub target_ip: Ipv4Addr,
}

/// The fields of an ARP packet.
pub ghost struct ArpFields {
    pub oper: u16,
    pub sender_mac: Seq<u8>,
    pub sender_ip: Seq<u8>,
    pub target_mac: Seq<u8>,
    pub target_ip: Seq<u8>,
}

impl View for ArpPacket {
    type V = ArpFields;

    open spec fn view(&self) -> ArpFields {
        ArpFields {
            oper: self.oper,
            sender_mac: self.sender_mac@,
            sender_ip: self.sender_ip@,
            target_mac: self.target_mac@,
            target_ip: self.target_ip@,
        }
    }
}

/// What the bytes of a packet stand for.
pub open spec fn arp_of(buf: Seq<u8>) -> Result<ArpFields, NetError> {
    if buf.len() < 28 {
        Err(NetError::Truncated)
    } else if be16_at(buf, 0) != 1 || be16_at(buf, 2) != 0x0800 || buf[4] != 6 || buf[5] != 4 {
        Err(NetError::Malformed)
    } else {
        Ok(
            ArpFields {
                oper: be16_at(buf, 6),
                sender_mac: buf.subrange(8, 14),
                sender_ip: buf.subrange(14, 18),
                target_mac: buf.subrange(18, 24),
                target_ip: buf.subrange(24, 28),
            },
        )
    }
}

/// The bytes of a packet: Ethernet, IPv4, address lengths 6 and 4, the operation,
/// and the addresses of sender and target.
pub open spec fn arp_bytes(p: ArpFields) -> Seq<u8> {
    be16(1) + be16(0x0800) + seq![6u8, 4u8] + be16(p.oper) + p.sender_mac + p.sender_ip
        + p.target_mac + p.target_ip
}

impl ArpPacket {
    /// Parse an ARP packet from `buf`.
    pub fn parse(buf: &[u8]) -> (r: Result<ArpPacket, NetError>)
        ensures
            match r {
                Ok(p) => arp_of(buf@) == Ok::<ArpFields, NetError>(p@),
                Err(e) => arp_of(buf@) == Err::<ArpFields, NetError>(e),
            },
    {
        if buf.len() < ARP_LEN {
            return Err(NetError::Truncated);
        }
        if get_be16(buf, 0) != 1 || get_be16(buf, 2) != 0x0800 || buf[4] != 6 || buf[5] != 4 {
            return Err(NetError::Malformed);
        }
        Ok(
            ArpPacket {
                oper: get_be16(buf, 6),
                sender_mac: get_mac(buf, 8),
                sender_ip: Ipv4Addr(get_ip(buf, 14)),
                target_mac: get_mac(buf, 18),
                target_ip: Ipv4Addr(get_ip(buf, 24)),
            },
        )
    }

    /// Serialize this ARP packet into `out` (28 bytes).
    pub fn build(&self, out: &mut [u8]) -> (r: Result<usize, NetError>)
        ensures
            if old(out)@.len() < 28 {
                &&& r == Err::<usize, NetError>(NetError::BufferTooSmall)
                &&& final(out)@ == old(out)@
            } else {
                &&& r == Ok::<usize, NetError>(28)
                &&& final(out)@ == overlaid(old(out)@, arp_bytes(self@))
            },
    {
        if out.len() < ARP_LEN {
            return Err(NetError::BufferTooSmall);
        }
        let mut p: Vec<u8> = Vec::new();
        push_be16(&mut p, 1);  // htype Ethernet
        push_be16(&mut p, 0x0800);  // ptype IPv4
        p.push(6);  // hlen
        p.push(4);  // plen
        push_be16(&mut p, self.oper);
        push_bytes(&mut p, &self.sender_mac);
        push_bytes(&mut p, &self.sender_ip.0);
        push_bytes(&mut p, &self.target_mac);
        push_bytes(&mut p, &self.target_ip.0);
        assert(p@ =~= arp_bytes(self@));
        put_front(out, p.as_slice());
        Ok(ARP_LEN)
    }
}

/// A packet that was built parses to itself.
pub proof fn built_packet_parses(p: ArpFields)
    requires
        p.sender_mac.len() == 6,
        p.sender_ip.len() == 4,
        p.target_mac.len() == 6,
        p.target_ip.len() == 4,
    ensures
        arp_of(arp_bytes(p)) == Ok::<ArpFields, NetError>(p),
{
    let b = arp_bytes(p);
    assert(b.len() == 28);
    lemma_be16(1, b, 0);
    lemma_be16(0x0800, b, 2);
    lemma_be16(p.oper, b, 6);
    assert(b[4] == 6 && b[5] == 4);
    assert(b.subrange(8, 14) =~= p.sender_mac);
    assert(b.subrange(14, 18) =~= p.sender_ip);
    assert(b.subrange(18, 24) =~= p.target_mac);
    assert(b.subrange(24, 28) =~= p.target_ip);
}

/// Build an ARP request asking "who has `target_ip`?" from `(sender_mac,
/// sender_ip)`.
pub fn request(sender_mac: MacAddr, sender_ip: Ipv4Addr, target_ip: Ipv4Addr) -> (p: ArpPacket)
    ensures
        p@ == (ArpFields {
            oper: 1,
            sender_mac: sender_mac@,
            sender_ip: sender_ip@,
            target_mac: seq![0u8, 0u8, 0u8, 0u8, 0u8, 0u8],
            target_ip: target_ip@,
        }),
{
    let p = ArpPacket {
        oper: oper::REQUEST,
        sender_mac,
        sender_ip,
        target_mac: [0u8, 0, 0, 0, 0, 0],
        target_ip,
    };
    assert(p@.target_mac =~= seq![0u8, 0u8, 0u8, 0u8, 0u8, 0u8]);
    p
}

/// Build an ARP reply answering `request` from `(our_mac, our_ip)`.
pub fn reply(request: &ArpPacket, our_mac: MacAddr, our_ip: Ipv4Addr) -> (p: ArpPacket)
    ensures
        p@ == (ArpFields {
            oper: 2,
            sender_mac: our_mac@,
            sender_ip: our_ip@,
            target_mac: request@.sender_mac,
            target_ip: request@.sender_ip,
        }),
{
    ArpPacket {
        oper: oper::REPLY,
        sender_mac: our_mac,
        sender_ip: our_ip,
        target_mac: request.sender_mac,
        target_ip: request.sender_ip,
    }
}

/// A cached resolution: an address and the MAC it has.
pub ghost struct Resolution {
    pub ip: Seq<u8>,
    pub mac: Seq<u8>,
}

/// The place of an address among cached resolutions.
pub open spec fn cached_at(slots: Seq<Option<Resolution>>, ip: Seq<u8>, i: int) -> bool {
    0 <= i < slots.len() && (slots[i] matches Some(r) && r.ip == ip)
}

/// An address is among the cached resolutions.
pub open spec fn is_cached(slots: Seq<Option<Resolution>>, ip: Seq<u8>) -> bool {
    exists|i: int| cached_at(slots, ip, i)
}

/// Capacity of the ARP cache.
pub const ARP_CACHE_CAP: usize = 16;

/// A tiny fixed-capacity ARP cache (IPv4 -> MAC) with round-robin replacement.
pub struct ArpCache {
    entries: [Option<(Ipv4Addr, MacAddr)>; ARP_CACHE_CAP],
    next: usize,
}

impl ArpCache {
    /// The slots of the cache.
    pub closed spec fn slots(&self) -> Seq<Option<Resolution>> {
        Seq::new(
            16,
            |i: int|
                match self.entries@[i] {
                    Some((ip, mac)) => Some(Resolution { ip: ip@, mac: mac@ }),
                    None => None,
                },
        )
    }

    /// The slot that the next new address takes.
    pub closed spec fn cursor(&self) -> int {
        self.next as int
    }

    /// The cursor is a slot, and no address is cached twice.
    pub open spec fn wf(&self) -> bool {
        &&& 0 <= self.cursor() < 16
        &&& forall|i: int, j: int, ip: Seq<u8>|
            #[trigger] cached_at(self.slots(), ip, i) && #[trigger] cached_at(self.slots(), ip, j)
                ==> i == j
    }

    /// A new, empty cache.
    pub fn new() -> (c: ArpCache)
        ensures
            c.wf(),
            c.slots() == Seq::new(16, |i: int| None::<Resolution>),
            c.cursor() == 0,
    {
        let c = ArpCache {
            entries: [
                None,
                None,
                None,
                None,
                None,
                None,
                None,
                None,
                None,
                None,
                None,
                None,
                None,
                None,
                None,
                None,
            ],
            next: 0,
        };
        assert(c.slots() =~= Seq::new(16, |i: int| None::<Resolution>));
        c
    }

    /// Where `ip` is cached.
    fn find(&self, ip: Ipv4Addr) -> (r: Option<usize>)
        ensures
            match r {
                Some(i) => cached_at(self.slots(), ip@, i as int) && forall|j: int|
                    0 <= j < i ==> !cached_at(self.slots(), ip@, j),
                None => forall|j: int| !cached_at(self.slots(), ip@, j),
            },
    {
        let mut i: usize = 0;
        while i < 16
            invariant
                i <= 16,
                forall|j: int| 0 <= j < i ==> !cached_at(self.slots(), ip@, j),
            decreases 16 - i,
        {
            if let Some((cached, _)) = self.entries[i] {
                if cached.same(ip) {
                    return Some(i);
                }
            }
            i = i + 1;
        }
        None
    }

    /// Insert or update `ip -> mac`.
    pub fn insert(&mut self, ip: Ipv4Addr, mac: MacAddr)
        requires
            old(self).wf(),
        ensures
            final(self).wf(),
            if exists|i: int| cached_at(old(self).slots(), ip@, i) {
                &&& final(self).cursor() == old(self).cursor()
                &&& forall|i: int|
                    cached_at(old(self).slots(), ip@, i) ==> final(self).slots() == old(
                        self,
                    ).slots().update(i, Some(Resolution { ip: ip@, mac: mac@ }))
            } else {
                &&& final(self).cursor() == (old(self).cursor() + 1) % 16
                &&& final(self).slots() == old(self).slots().update(
                    old(self).cursor(),
                    Some(Resolution { ip: ip@, mac: mac@ }),
                )
            },
    {
        let ghost before = self.slots();
        let ghost new = Some(Resolution { ip: ip@, mac: mac@ });
        match self.find(ip) {
            Some(i) => {
                self.entries[i] = Some((ip, mac));
                proof {
                    assert(self.slots() =~= before.update(i as int, new));
                    assert forall|a: int, b: int, x: Seq<u8>|
                        #[trigger] cached_at(self.slots(), x, a) && #[trigger] cached_at(
                            self.slots(),
                            x,
                            b,
                        ) implies a == b by {
                        assert(cached_at(before, x, a));
                        assert(cached_at(before, x, b));
                    }
                }
            },
            None => {
                let slot: usize = self.next;
                self.entries[slot] = Some((ip, mac));
                self.next = (self.next + 1) % ARP_CACHE_CAP;
                proof {
                    assert(self.slots() =~= before.update(slot as int, new));
                    assert forall|a: int, b: int, x: Seq<u8>|
                        #[trigger] cached_at(self.slots(), x, a) && #[trigger] cached_at(
                            self.slots(),
                            x,
                            b,
                        ) implies a == b by {
                        if a != slot {
                            assert(cached_at(before, x, a));
                        }
                        if b != slot {
                            assert(cached_at(before, x, b));
                        }
                    }
                }
            },
        }
    }

    /// Look up the MAC for `ip`, if cached.
    pub fn lookup(&self, ip: Ipv4Addr) -> (r: Option<MacAddr>)
        requires
            self.wf(),
        ensures
            r is Some <==> is_cached(self.slots(), ip@),
            match r {
                Some(mac) => exists|i: int|
                    #[trigger] cached_at(self.slots(), ip@, i) && self.slots()[i] == Some(
                        Resolution { ip: ip@, mac: mac@ },
                    ),
                None => forall|i: int| !cached_at(self.slots(), ip@, i),
            },
    {
        match self.find(ip) {
            None => None,
            Some(i) => match self.entries[i] {
                Some((_, mac)) => {
                    assert(cached_at(self.slots(), ip@, i as int));
                    Some(mac)
                },
                None => None,
            },
        }
    }
}

impl Default for ArpCache {
    fn default() -> (c: ArpCache)
        ensures
            c.wf(),
            c.slots() == Seq::new(16, |i: int| None::<Resolution>),
            c.cursor() == 0,
    {
        ArpCache::new()
    }
}

/// Once a slot holds a resolution of an address, every lookup of that address finds
/// that resolution: an insert is seen, and an update replaces what was there.
pub proof fn inserted_address_is_found(
    cache: ArpCache,
    i: int,
    j: int,
    ip: Seq<u8>,
    mac: Seq<u8>,
)
    requires
        cache.wf(),
        0 <= i < 16,
        cache.slots()[i] == Some(Resolution { ip, mac }),
        cached_at(cache.slots(), ip, j),
    ensures
        cached_at(cache.slots(), ip, i),
        cache.slots()[j] == Some(Resolution { ip, mac }),
{
    assert(cached_at(cache.slots(), ip, i));
}

/// Where the fields of a packet stand: hardware type 1 and protocol type 0x0800 in
/// bytes 0 to 3, the address lengths 6 and 4, the operation in bytes 6 and 7, then the
/// sender's two addresses and the target's.
pub proof fn packet_layout(p: ArpFields)
    requires
        p.sender_mac.len() == 6,
        p.sender_ip.len() == 4,
        p.target_mac.len() == 6,
        p.target_ip.len() == 4,
    ensures
        ({
            let b = arp_bytes(p);
            &&& b.len() == 28
            &&& b[0] == 0 && b[1] == 1 && b[2] == 8 && b[3] == 0 && b[4] == 6 && b[5] == 4
            &&& b[6] as int * 256 + b[7] as int == p.oper
            &&& forall|i: int| 8 <= i < 14 ==> #[trigger] b[i] == p.sender_mac[i - 8]
            &&& forall|i: int| 14 <= i < 18 ==> #[trigger] b[i] == p.sender_ip[i - 14]
            &&& forall|i: int| 18 <= i < 24 ==> #[trigger] b[i] == p.target_mac[i - 18]
            &&& forall|i: int| 24 <= i < 28 ==> #[trigger] b[i] == p.target_ip[i - 24]
        }),
{
}

/// Bytes parse exactly where there are 28 of them and they begin as an IPv4 over
/// Ethernet packet does; what the parse gives is what stands in them.
pub proof fn parse_reads_the_fields_in_place(buf: Seq<u8>)
    ensures
        buf.len() < 28 <==> arp_of(buf) == Err::<ArpFields, NetError>(NetError::Truncated),
        arp_of(buf) is Ok <==> buf.len() >= 28 && buf[0] == 0 && buf[1] == 1 && buf[2] == 8
            && buf[3] == 0 && buf[4] == 6 && buf[5] == 4,
        arp_of(buf) matches Ok(p) ==> {
            &&& p.oper == buf[6] as int * 256 + buf[7] as int
            &&& p.sender_mac.len() == 6 && p.sender_ip.len() == 4
            &&& p.target_mac.len() == 6 && p.target_ip.len() == 4
            &&& forall|i: int| 8 <= i < 14 ==> p.sender_mac[i - 8] == #[trigger] buf[i]
            &&& forall|i: int| 14 <= i < 18 ==> p.sender_ip[i - 14] == #[trigger] buf[i]
            &&& forall|i: int| 18 <= i < 24 ==> p.target_mac[i - 18] == #[trigger] buf[i]
            &&& forall|i: int| 24 <= i < 28 ==> p.target_ip[i - 24] == #[trigger] buf[i]
        },
{
}

/// A request asks for the address it was made for, on behalf of who made it; the answer
/// to it goes back to who asked, and tells them the address they asked for.
pub proof fn reply_answers_the_request(
    asker: MacAddr,
    asker_ip: Ipv4Addr,
    wanted: Ipv4Addr,
    owner: MacAddr,
    q: ArpPacket,
    a: ArpPacket,
)
    requires
        call_ensures(request, (asker, asker_ip, wanted), q),
        call_ensures(reply, (&q, owner, wanted), a),
    ensures
        q.oper == 1 && a.oper == 2,
        q.sender_mac@ == asker@ && q.sender_ip@ == asker_ip@,
        q.target_ip@ == wanted@,
        forall|i: int| 0 <= i < 6 ==> #[trigger] q.target_mac@[i] == 0,
        a.sender_mac@ == owner@ && a.sender_ip@ == q.target_ip@,
        a.target_mac@ == asker@ && a.target_ip@ == asker_ip@,
{
}

/// A packet that was built parses, whatever follows it in the buffer, to itself.
pub proof fn packet_arrives(
    p: ArpPacket,
    out: &mut [u8],
    r: Result<usize, NetError>,
    wire: &[u8],
    got: Result<ArpPacket, NetError>,
)
    requires
        call_ensures(ArpPacket::build, (&p, out), r),
        r is Ok,
        wire@ == final(out)@,
        call_ensures(ArpPacket::parse, (wire,), got),
    ensures
        r == Ok::<usize, NetError>(28),
        got matches Ok(g) && g.oper == p.oper && g.sender_mac@ == p.sender_mac@ && g.sender_ip@
            == p.sender_ip@ && g.target_mac@ == p.target_mac@ && g.target_ip@ == p.target_ip@,
{
    packet_layout(p@);
    let b = arp_bytes(p@);
    parse_reads_the_fields_in_place(wire@);
    if let Ok(g) = got {
        assert(g@.sender_mac =~= p@.sender_mac);
        assert(g@.sender_ip =~= p@.sender_ip);
        assert(g@.target_mac =~= p@.target_mac);
        assert(g@.target_ip =~= p@.target_ip);
    }
}

/// An address that was put in the cache is found there with the hardware address it was
/// put in with; every other address that was there with a hardware address is found with
/// that one still, or, where the cache made room for a new address, not at all.
pub proof fn cached_address_is_found(
    cache: &mut ArpCache,
    ip: Ipv4Addr,
    mac: MacAddr,
    after: ArpCache,
    asked: Ipv4Addr,
    before: Option<MacAddr>,
    now: Option<MacAddr>,
)
    requires
        old(cache).wf(),
        call_ensures(ArpCache::insert, (cache, ip, mac), ()),
        after == *final(cache),
        call_ensures(ArpCache::lookup, (&*old(cache), asked), before),
        call_ensures(ArpCache::lookup, (&after, asked), now),
    ensures
        asked@ == ip@ ==> (now matches Some(m) && m@ == mac@),
        asked@ != ip@ ==> (now matches Some(m) ==> (before matches Some(b) && b@ == m@)),
        asked@ != ip@ && now is None && before is Some ==> forall|i: int|
            !cached_at(old(cache).slots(), ip@, i),
{
    let was = old(cache).slots();
    let slots = after.slots();
    let new = Some(Resolution { ip: ip@, mac: mac@ });
    let k = if exists|i: int| cached_at(was, ip@, i) {
        choose|i: int| cached_at(was, ip@, i)
    } else {
        old(cache).cursor()
    };
    assert(slots == was.update(k, new));
    assert(was.len() == 16);
    assert(cached_at(slots, ip@, k));
    assert forall|j: int| asked@ != ip@ && j != k implies cached_at(slots, asked@, j) == cached_at(
        was,
        asked@,
        j,
    ) by {}
    if let Some(m) = now {
        let j = choose|j: int|
            #[trigger] cached_at(slots, asked@, j) && slots[j] == Some(
                Resolution { ip: asked@, mac: m@ },
            );
        assert(cached_at(slots, asked@, j));
        if asked@ != ip@ {
            assert(j != k);
            assert(cached_at(was, asked@, j));
            if let Some(b) = before {
                let i = choose|i: int|
                    #[trigger] cached_at(was, asked@, i) && was[i] == Some(
                        Resolution { ip: asked@, mac: b@ },
                    );
                assert(i == j);
            }
        }
    } else if before is Some {
        assert(!is_cached(slots, asked@));
        let j = choose|j: int| #[trigger] cached_at(was, asked@, j);
        assert(!cached_at(slots, asked@, j));
        assert(j == k);
    }
}

/// A cache knows nothing at first. An address that it does not know takes the place whose
/// turn it is, and that place then comes last: every other one is one turn nearer, so that
/// fifteen more addresses go in before the first has to go. One that it knows keeps its
/// place, and nobody's turn changes.
pub proof fn oldest_address_makes_room(
    fresh: ArpCache,
    asked: Ipv4Addr,
    found: Option<MacAddr>,
    cache: &mut ArpCache,
    ip: Ipv4Addr,
    mac: MacAddr,
    j: int,
)
    requires
        call_ensures(ArpCache::new, (), fresh),
        call_ensures(ArpCache::lookup, (&fresh, asked), found),
        old(cache).wf(),
        call_ensures(ArpCache::insert, (cache, ip, mac), ()),
        0 <= j < 16,
    ensures
        found is None,
        ({
            let was = old(cache).slots();
            let turn = (j - old(cache).cursor()) % 16;
            let later = (j - final(cache).cursor()) % 16;
            let new = Some(Resolution { ip: ip@, mac: mac@ });
            if exists|i: int| cached_at(was, ip@, i) {
                &&& later == turn
                &&& final(cache).slots()[j] == if cached_at(was, ip@, j) {
                    new
                } else {
                    was[j]
                }
            } else {
                &&& turn == 0 ==> later == 15 && final(cache).slots()[j] == new
                &&& turn > 0 ==> later == turn - 1 && final(cache).slots()[j] == was[j]
            }
        }),
{
    let was = old(cache).slots();
    assert(forall|i: int| !cached_at(fresh.slots(), asked@, i));
    if exists|i: int| cached_at(was, ip@, i) {
        let i = choose|i: int| cached_at(was, ip@, i);
        assert(cached_at(was, ip@, i));
        assert(i == j <==> cached_at(was, ip@, j));
    }
}

} // verus!

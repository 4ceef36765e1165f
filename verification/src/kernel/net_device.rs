//! Network devices.
//!
//! The portable interface between network-interface drivers and the layers above
//! them. A NIC is frame-oriented: it sends and receives whole link-layer frames, has
//! a hardware MAC address, an MTU, and a link that may be up or down.
use std::collections::VecDeque;
use vstd::prelude::*;
use vstd::slice::slice_to_vec;
use crate::net::wire::{overlaid, put_front};

verus! {

/// A 6-byte Ethernet MAC address.
pub type MacAddress = [u8; 6];

/// The maximum standard Ethernet payload (frame MTU), in bytes.
pub const DEFAULT_MTU: usize = 1500;

/// A network device I/O error.
#[derive(Debug, Clone, Copy, PartialEq, Eq, Structural)]
pub enum NetDeviceError {
    /// The link is down; no frames can be sent or received.
    LinkDown,
    /// The frame exceeds the device MTU (on send) or the caller's buffer was too
    /// small to hold a received frame.
    TooLarge,
    /// The transmit path is momentarily full (rings exhausted); retry later.
    Busy,
    /// The device reported an error (driver-specific hardware failure).
    DeviceError,
}

/// A frame-oriented network interface.
pub trait NetDevice {
    /// The frames that were accepted for transmission, oldest first.
    spec fn sent(&self) -> Seq<Seq<u8>>;

    /// The frames waiting to be received, oldest first.
    spec fn waiting(&self) -> Seq<Seq<u8>>;

    /// Whether the carrier is present.
    spec fn carrier(&self) -> bool;

    /// The longest frame that the device takes.
    spec fn frame_limit(&self) -> nat;

    /// The hardware address.
    spec fn station(&self) -> Seq<u8>;

    /// The device's hardware MAC address.
    fn mac(&self) -> (m: MacAddress)
        ensures
            m@ == self.station(),
    ;

    /// Whether the link is currently up (carrier present).
    fn link_up(&self) -> (r: bool)
        ensures
            r == self.carrier(),
    ;

    /// The device MTU (maximum frame payload) in bytes.
    fn mtu(&self) -> (n: usize)
        default_ensures
            n == 1500,
    {
        DEFAULT_MTU
    }

    /// Transmit one link-layer frame.
    fn send_frame(&mut self, frame: &[u8]) -> (r: Result<(), NetDeviceError>)
        ensures
            final(self).carrier() == old(self).carrier(),
            final(self).frame_limit() == old(self).frame_limit(),
            final(self).station() == old(self).station(),
            match r {
                Ok(_) => {
                    &&& old(self).carrier()
                    &&& frame@.len() <= old(self).frame_limit()
                    &&& final(self).sent() == old(self).sent().push(frame@)
                },
                Err(e) => {
                    &&& final(self).sent() == old(self).sent()
                    &&& final(self).waiting() == old(self).waiting()
                    &&& !old(self).carrier() ==> e is LinkDown
                    &&& old(self).carrier() ==> !(e is LinkDown)
                    &&& old(self).carrier() && frame@.len() > old(self).frame_limit()
                        ==> e is TooLarge
                    &&& frame@.len() <= old(self).frame_limit() ==> !(e is TooLarge)
                },
            },
    ;

    /// Receive one waiting frame into `buf`, returning the number of bytes written,
    /// or `None` if no frame is currently waiting (non-blocking).
    fn recv_frame(&mut self, buf: &mut [u8]) -> (r: Result<Option<usize>, NetDeviceError>)
        ensures
            final(self).carrier() == old(self).carrier(),
            final(self).frame_limit() == old(self).frame_limit(),
            final(self).station() == old(self).station(),
            final(self).sent() == old(self).sent(),
            final(buf)@.len() == old(buf)@.len(),
            match r {
                Ok(Some(n)) => {
                    &&& old(self).carrier()
                    &&& old(self).waiting().len() > 0
                    &&& n == old(self).waiting()[0].len()
                    &&& n <= old(buf)@.len()
                    &&& final(buf)@ == overlaid(old(buf)@, old(self).waiting()[0])
                    &&& final(self).waiting() == old(self).waiting().subrange(
                        1,
                        old(self).waiting().len() as int,
                    )
                },
                Ok(None) => {
                    &&& old(self).carrier()
                    &&& old(self).waiting().len() == 0
                    &&& final(self).waiting() == old(self).waiting()
                    &&& final(buf)@ == old(buf)@
                },
                Err(e) => {
                    &&& final(self).waiting() == old(self).waiting()
                    &&& e is LinkDown <==> !old(self).carrier()
                    &&& e is TooLarge ==> old(self).waiting().len() > 0 && old(buf)@.len() < old(self).waiting()[0].len()
                },
            },
    ;
}

/// A NIC whose frames come back to it: what is sent becomes available to receive.
pub struct LoopbackNic {
    mac: MacAddress,
    up: bool,
    queue: VecDeque<Vec<u8>>,
    log: Ghost<Seq<Seq<u8>>>,
}

impl LoopbackNic {
    /// The frames in the loop.
    pub closed spec fn queued(&self) -> Seq<Seq<u8>> {
        Seq::new(self.queue@.len(), |i: int| self.queue@[i]@)
    }

    /// The frames that were sent.
    pub closed spec fn log(&self) -> Seq<Seq<u8>> {
        self.log@
    }

    /// Whether the link is up.
    pub closed spec fn is_up(&self) -> bool {
        self.up
    }

    /// The hardware address.
    pub closed spec fn address(&self) -> Seq<u8> {
        self.mac@
    }

    /// A NIC with the link up and no frames.
    pub fn new(mac: MacAddress) -> (nic: LoopbackNic)
        ensures
            nic.queued() == Seq::<Seq<u8>>::empty(),
            nic.log() == Seq::<Seq<u8>>::empty(),
            nic.is_up(),
            nic.address() == mac@,
    {
        let nic = LoopbackNic {
            mac,
            up: true,
            queue: VecDeque::new(),
            log: Ghost(Seq::empty()),
        };
        assert(nic.queued() =~= Seq::<Seq<u8>>::empty());
        nic
    }

    /// Raise or drop the link.
    pub fn set_link(&mut self, up: bool)
        ensures
            final(self).is_up() == up,
            final(self).queued() == old(self).queued(),
            final(self).log() == old(self).log(),
            final(self).address() == old(self).address(),
    {
        self.up = up;
    }
}

impl NetDevice for LoopbackNic {
    open spec fn sent(&self) -> Seq<Seq<u8>> {
        self.log()
    }

    open spec fn waiting(&self) -> Seq<Seq<u8>> {
        self.queued()
    }

    open spec fn carrier(&self) -> bool {
        self.is_up()
    }

    open spec fn frame_limit(&self) -> nat {
        1500
    }

    open spec fn station(&self) -> Seq<u8> {
        self.address()
    }

    fn mac(&self) -> (m: MacAddress)
        ensures
            m@ == self.address(),
    {
        self.mac
    }

    fn link_up(&self) -> (r: bool) {
        self.up
    }

    fn send_frame(&mut self, frame: &[u8]) -> (r: Result<(), NetDeviceError>)
        ensures
            r is Ok <==> old(self).is_up() && frame@.len() <= 1500,
            r is Ok ==> final(self).queued() == old(self).queued().push(frame@),
            final(self).address() == old(self).address(),
    {
        if !self.up {
            return Err(NetDeviceError::LinkDown);
        }
        if frame.len() > DEFAULT_MTU {
            return Err(NetDeviceError::TooLarge);
        }
        self.queue.push_back(slice_to_vec(frame));
        proof {
            self.log@ = self.log@.push(frame@);
        }
        assert(self.queued() =~= old(self).queued().push(frame@));
        Ok(())
    }

    fn recv_frame(&mut self, buf: &mut [u8]) -> (r: Result<Option<usize>, NetDeviceError>)
        ensures
            r is Ok <==> old(self).is_up() && (old(self).queued().len() == 0 || old(self).queued()[0].len() <= old(buf)@.len()),
            old(self).is_up() && old(self).queued().len() > 0 && old(buf)@.len() < old(self).queued()[0].len()
                ==> r == Err::<Option<usize>, NetDeviceError>(NetDeviceError::TooLarge),
            final(self).address() == old(self).address(),
    {
        if !self.up {
            return Err(NetDeviceError::LinkDown);
        }
        if self.queue.len() == 0 {
            return Ok(None);
        }
        if buf.len() < self.queue[0].len() {
            return Err(NetDeviceError::TooLarge);
        }
        match self.queue.pop_front() {
            None => Ok(None),
            Some(frame) => {
                put_front(buf, frame.as_slice());
                assert(self.queued() =~= old(self).queued().subrange(
                    1,
                    old(self).queued().len() as int,
                ));
                Ok(Some(frame.len()))
            },
        }
    }
}

/// What is sent on the loop comes back, oldest first and unchanged, in a buffer that is long
/// enough; what of the buffer is not needed is as it was.
pub proof fn sent_frames_come_back(
    s: &mut LoopbackNic,
    mid: LoopbackNic,
    frame: &[u8],
    r: Result<(), NetDeviceError>,
    v: &mut LoopbackNic,
    buf: &mut [u8],
    got: Result<Option<usize>, NetDeviceError>,
    up: bool,
)
    requires
        mid == *final(s),
        call_ensures(LoopbackNic::link_up, (&*old(s),), up),
        call_ensures(LoopbackNic::send_frame, (s, frame), r),
        *old(v) == mid,
        call_ensures(LoopbackNic::recv_frame, (v, buf), got),
    ensures
        r is Ok <==> up && frame@.len() <= 1500,
        !up ==> r == Err::<(), NetDeviceError>(NetDeviceError::LinkDown) && got == Err::<
            Option<usize>,
            NetDeviceError,
        >(NetDeviceError::LinkDown),
        up && frame@.len() > 1500 ==> r == Err::<(), NetDeviceError>(NetDeviceError::TooLarge),
        r is Ok && old(s).queued().len() == 0 && frame@.len() <= old(buf)@.len() ==> {
            &&& got matches Ok(Some(n)) && n == frame@.len()
            &&& forall|i: int| 0 <= i < frame@.len() ==> #[trigger] final(buf)@[i] == frame@[i]
            &&& forall|i: int|
                frame@.len() <= i < old(buf)@.len() ==> #[trigger] final(buf)@[i] == old(buf)@[i]
            &&& final(v).queued().len() == 0
        },
        r is Ok && old(s).queued().len() > 0 && old(s).queued()[0].len() <= old(buf)@.len() ==> {
            &&& got matches Ok(Some(n)) && n == old(s).queued()[0].len()
            &&& final(v).queued().last() == frame@
            &&& final(v).queued().len() == old(s).queued().len()
        },
        r is Err && up && old(s).queued().len() == 0 ==> got == Ok::<
            Option<usize>,
            NetDeviceError,
        >(None),
{
}

} // verus!

//! What the system-call dispatcher is given and what it asks of the kernel.
use vstd::prelude::*;
use vstd::utf8::encode_utf8;
use crate::abi::calls::{error_return, SyscallError};
use crate::abi::ids::BoundaryId;
use crate::abi::terms::{ChannelTerms, Terms};

verus! {

/// A decoded system call: the number and up to three argument words, plus the
/// boundary that issued it.
#[derive(Debug, Clone, Copy)]
pub struct SyscallRequest {
    /// Raw call number (from the number register).
    pub number: u64,
    /// Argument 0.
    pub arg0: u64,
    /// Argument 1.
    pub arg1: u64,
    /// Argument 2.
    pub arg2: u64,
    /// The boundary that issued the trap.
    pub boundary: BoundaryId,
}

/// What the dispatcher decided should happen after handling a call.
#[derive(Debug, Clone, Copy, PartialEq, Eq, Structural)]
pub enum SyscallOutcome {
    /// Return this value to the caller (placed in the return register).
    Return(i64),
    /// End the calling lane with this code.
    Exit(u64),
    /// Reschedule the calling lane.
    Yield,
}

/// The bytes in a reply.
pub open spec fn bytes_view(r: Result<Vec<u8>, SyscallError>) -> Result<Seq<u8>, SyscallError> {
    match r {
        Ok(b) => Ok(b@),
        Err(e) => Err(e),
    }
}

/// The file in a reply.
pub open spec fn file_view(r: Result<Option<Vec<u8>>, SyscallError>) -> Result<
    Option<Seq<u8>>,
    SyscallError,
> {
    match r {
        Ok(Some(b)) => Ok(Some(b@)),
        Ok(None) => Ok(None),
        Err(e) => Err(e),
    }
}

/// The UTF-8 bytes of a list of names.
pub open spec fn name_bytes(names: Seq<String>) -> Seq<Seq<u8>> {
    Seq::new(names.len(), |i: int| encode_utf8(names[i]@))
}

/// The names in a reply.
pub open spec fn names_view(r: Result<Option<Vec<String>>, SyscallError>) -> Result<
    Option<Seq<Seq<u8>>>,
    SyscallError,
> {
    match r {
        Ok(Some(names)) => Ok(Some(name_bytes(names@))),
        Ok(None) => Ok(None),
        Err(e) => Err(e),
    }
}

/// A service that the dispatcher asked of its environment, with what was handed
/// over and what came back. A buffer that the service fills is given as it was
/// left.
#[allow(inconsistent_fields)]
pub ghost enum ServiceCall {
    CopyIn { boundary: BoundaryId, ptr: u64, len: usize, out: Seq<u8>, result: Result<(), SyscallError> },
    ConsoleWrite { bytes: Seq<u8> },
    NowNanos { result: u64 },
    CopyOut { boundary: BoundaryId, ptr: u64, bytes: Seq<u8>, result: Result<(), SyscallError> },
    FsRead { path: Seq<u8>, result: Result<Option<Seq<u8>>, SyscallError> },
    FsWrite { path: Seq<u8>, data: Seq<u8>, result: Result<(), SyscallError> },
    FsMkdir { path: Seq<u8>, result: Result<(), SyscallError> },
    FsExists { path: Seq<u8>, result: Result<bool, SyscallError> },
    FsList { path: Seq<u8>, result: Result<Option<Seq<Seq<u8>>>, SyscallError> },
    FsDelete { path: Seq<u8>, result: Result<(), SyscallError> },
    SleepNanos { nanos: u64, result: Result<(), SyscallError> },
    ReadKey { blocking: bool, result: i64 },
    FillRandom { out: Seq<u8>, result: Result<(), SyscallError> },
    OpenChannel { boundary: BoundaryId, capacity: usize, max_message_bytes: usize, result: Result<u64, SyscallError> },
    ChannelSend { boundary: BoundaryId, handle: u64, data: Seq<u8>, result: Result<(), SyscallError> },
    ChannelRecv { boundary: BoundaryId, handle: u64, result: Result<Seq<u8>, SyscallError> },
    Spawn { boundary: BoundaryId, entry: u64, arg: u64, result: Result<u64, SyscallError> },
    RequestChannel { requester: BoundaryId, target: BoundaryId, terms: Terms, result: Result<u64, SyscallError> },
    PollChannelRequest { target: BoundaryId, out: Seq<u8>, result: Result<u64, SyscallError> },
    AcceptChannel { target: BoundaryId, request_id: u64, result: Result<u64, SyscallError> },
    RejectChannel { target: BoundaryId, request_id: u64, result: Result<(), SyscallError> },
    PollChannelOutcome { requester: BoundaryId, request_id: u64, result: Result<u64, SyscallError> },
    GateBind { owner: BoundaryId, gate: u16, result: Result<u64, SyscallError> },
    GateConnect { from: BoundaryId, gate: u16, result: Result<u64, SyscallError> },
    GateAccept { owner: BoundaryId, gate: u16, result: Result<u64, SyscallError> },
    LinkSend { boundary: BoundaryId, handle: u64, data: Seq<u8>, result: Result<(), SyscallError> },
    LinkRecv { boundary: BoundaryId, handle: u64, result: Result<Seq<u8>, SyscallError> },
    LinkClose { boundary: BoundaryId, handle: u64, result: Result<(), SyscallError> },
    WardenSet { boundary: BoundaryId, gate: u16, allow: bool, result: Result<(), SyscallError> },
    GateProbe { boundary: BoundaryId, gate: u16, result: Result<u64, SyscallError> },
}

/// The services performed by an environment, in order.
pub type Trace = Seq<ServiceCall>;

/// What the dispatcher needs of the running kernel. Each method records the
/// service it performed at the end of the environment's trace.
pub trait SyscallEnv {
    /// The services performed so far.
    spec fn trace(&self) -> Trace;

    /// Copy `len` bytes at the user address `ptr` of `boundary` into `out`.
    fn copy_from_user(&mut self, boundary: BoundaryId, ptr: u64, len: usize, out: &mut [u8]) -> (r: Result<(), SyscallError>)
        requires
            old(out)@.len() == len,
        ensures
            final(self).trace() == old(self).trace().push(ServiceCall::CopyIn { boundary, ptr, len, out: final(out)@, result: r }),
            final(out)@.len() == old(out)@.len(),
    ;

    /// Write bytes to the console.
    fn console_write(&mut self, bytes: &[u8])
        ensures
            final(self).trace() == old(self).trace().push(ServiceCall::ConsoleWrite { bytes: bytes@ }),
    ;

    /// Nanoseconds on the monotonic clock.
    fn now_nanos(&mut self) -> (r: u64)
        ensures
            final(self).trace() == old(self).trace().push(ServiceCall::NowNanos { result: r }),
    ;

    /// Copy `bytes` to the user address `ptr` of `boundary`.
    fn copy_to_user(&mut self, boundary: BoundaryId, ptr: u64, bytes: &[u8]) -> (r: Result<(), SyscallError>)
        ensures
            final(self).trace() == old(self).trace().push(ServiceCall::CopyOut { boundary, ptr, bytes: bytes@, result: r }),
    ;

    /// Read the whole file at `path`, or `None` if it is not there.
    fn fs_read(&mut self, path: &[u8]) -> (r: Result<Option<Vec<u8>>, SyscallError>)
        ensures
            final(self).trace() == old(self).trace().push(ServiceCall::FsRead { path: path@, result: file_view(r) }),
    ;

    /// Create or overwrite the file at `path`.
    fn fs_write(&mut self, path: &[u8], data: &[u8]) -> (r: Result<(), SyscallError>)
        ensures
            final(self).trace() == old(self).trace().push(ServiceCall::FsWrite { path: path@, data: data@, result: r }),
    ;

    /// Create the directory `path`.
    fn fs_mkdir(&mut self, path: &[u8]) -> (r: Result<(), SyscallError>)
        ensures
            final(self).trace() == old(self).trace().push(ServiceCall::FsMkdir { path: path@, result: r }),
    ;

    /// Whether `path` exists.
    fn fs_exists(&mut self, path: &[u8]) -> (r: Result<bool, SyscallError>)
        ensures
            final(self).trace() == old(self).trace().push(ServiceCall::FsExists { path: path@, result: r }),
    ;

    /// The names in the directory `path`, or `None` if it is not there.
    fn fs_list(&mut self, path: &[u8]) -> (r: Result<Option<Vec<String>>, SyscallError>)
        ensures
            final(self).trace() == old(self).trace().push(ServiceCall::FsList { path: path@, result: names_view(r) }),
    ;

    /// Remove the file at `path`.
    fn fs_delete(&mut self, path: &[u8]) -> (r: Result<(), SyscallError>)
        ensures
            final(self).trace() == old(self).trace().push(ServiceCall::FsDelete { path: path@, result: r }),
    ;

    /// Make the caller wait for `nanos`.
    fn sleep_nanos(&mut self, nanos: u64) -> (r: Result<(), SyscallError>)
        ensures
            final(self).trace() == old(self).trace().push(ServiceCall::SleepNanos { nanos, result: r }),
    ;

    /// Read a key event, waiting for one if `blocking`.
    fn read_key(&mut self, blocking: bool) -> (r: i64)
        ensures
            final(self).trace() == old(self).trace().push(ServiceCall::ReadKey { blocking, result: r }),
    ;

    /// Fill `out` with random bytes.
    fn fill_random(&mut self, out: &mut [u8]) -> (r: Result<(), SyscallError>)
        ensures
            final(self).trace() == old(self).trace().push(ServiceCall::FillRandom { out: final(out)@, result: r }),
            final(out)@.len() == old(out)@.len(),
    ;

    /// Open a channel of `capacity` messages within `boundary`.
    fn open_channel(&mut self, boundary: BoundaryId, capacity: usize, max_message_bytes: usize) -> (r: Result<u64, SyscallError>)
        ensures
            final(self).trace() == old(self).trace().push(ServiceCall::OpenChannel { boundary, capacity, max_message_bytes, result: r }),
    ;

    /// Send `data` over the channel `handle`.
    fn channel_send(&mut self, boundary: BoundaryId, handle: u64, data: &[u8]) -> (r: Result<(), SyscallError>)
        ensures
            final(self).trace() == old(self).trace().push(ServiceCall::ChannelSend { boundary, handle, data: data@, result: r }),
    ;

    /// Receive a message from the channel `handle`.
    fn channel_recv(&mut self, boundary: BoundaryId, handle: u64) -> (r: Result<Vec<u8>, SyscallError>)
        ensures
            final(self).trace() == old(self).trace().push(ServiceCall::ChannelRecv { boundary, handle, result: bytes_view(r) }),
    ;

    /// Start a lane at `entry` with argument `arg`.
    fn spawn(&mut self, boundary: BoundaryId, entry: u64, arg: u64) -> (r: Result<u64, SyscallError>)
        ensures
            final(self).trace() == old(self).trace().push(ServiceCall::Spawn { boundary, entry, arg, result: r }),
    ;

    /// Ask `target` for a channel on behalf of `requester`.
    fn request_channel(&mut self, requester: BoundaryId, target: BoundaryId, terms: &ChannelTerms) -> (r: Result<u64, SyscallError>)
        ensures
            final(self).trace() == old(self).trace().push(ServiceCall::RequestChannel { requester, target, terms: terms@, result: r }),
    ;

    /// Write the oldest request addressed to `target` to `out`, and give its number.
    fn poll_channel_request(&mut self, target: BoundaryId, out: &mut [u8]) -> (r: Result<u64, SyscallError>)
        ensures
            final(self).trace() == old(self).trace().push(ServiceCall::PollChannelRequest { target, out: final(out)@, result: r }),
            final(out)@.len() == old(out)@.len(),
    ;

    /// Accept a request addressed to `target`.
    fn accept_channel(&mut self, target: BoundaryId, request_id: u64) -> (r: Result<u64, SyscallError>)
        ensures
            final(self).trace() == old(self).trace().push(ServiceCall::AcceptChannel { target, request_id, result: r }),
    ;

    /// Reject a request addressed to `target`.
    fn reject_channel(&mut self, target: BoundaryId, request_id: u64) -> (r: Result<(), SyscallError>)
        ensures
            final(self).trace() == old(self).trace().push(ServiceCall::RejectChannel { target, request_id, result: r }),
    ;

    /// How a request of `requester` was answered.
    fn poll_channel_outcome(&mut self, requester: BoundaryId, request_id: u64) -> (r: Result<u64, SyscallError>)
        ensures
            final(self).trace() == old(self).trace().push(ServiceCall::PollChannelOutcome { requester, request_id, result: r }),
    ;

    /// Bind `gate` for `owner`.
    fn gate_bind(&mut self, owner: BoundaryId, gate: u16) -> (r: Result<u64, SyscallError>)
        ensures
            final(self).trace() == old(self).trace().push(ServiceCall::GateBind { owner, gate, result: r }),
    ;

    /// Connect `from` to `gate`.
    fn gate_connect(&mut self, from: BoundaryId, gate: u16) -> (r: Result<u64, SyscallError>)
        ensures
            final(self).trace() == old(self).trace().push(ServiceCall::GateConnect { from, gate, result: r }),
    ;

    /// Accept a connection on `gate` for `owner`.
    fn gate_accept(&mut self, owner: BoundaryId, gate: u16) -> (r: Result<u64, SyscallError>)
        ensures
            final(self).trace() == old(self).trace().push(ServiceCall::GateAccept { owner, gate, result: r }),
    ;

    /// Send `data` over the link `handle`.
    fn link_send(&mut self, boundary: BoundaryId, handle: u64, data: &[u8]) -> (r: Result<(), SyscallError>)
        ensures
            final(self).trace() == old(self).trace().push(ServiceCall::LinkSend { boundary, handle, data: data@, result: r }),
    ;

    /// Receive from the link `handle`.
    fn link_recv(&mut self, boundary: BoundaryId, handle: u64) -> (r: Result<Vec<u8>, SyscallError>)
        ensures
            final(self).trace() == old(self).trace().push(ServiceCall::LinkRecv { boundary, handle, result: bytes_view(r) }),
    ;

    /// Close the link `handle`.
    fn link_close(&mut self, boundary: BoundaryId, handle: u64) -> (r: Result<(), SyscallError>)
        ensures
            final(self).trace() == old(self).trace().push(ServiceCall::LinkClose { boundary, handle, result: r }),
    ;

    /// Set the warden's rule for `gate`.
    fn warden_set(&mut self, boundary: BoundaryId, gate: u16, allow: bool) -> (r: Result<(), SyscallError>)
        ensures
            final(self).trace() == old(self).trace().push(ServiceCall::WardenSet { boundary, gate, allow, result: r }),
    ;

    /// The state of `gate`.
    fn gate_probe(&mut self, boundary: BoundaryId, gate: u16) -> (r: Result<u64, SyscallError>)
        ensures
            final(self).trace() == old(self).trace().push(ServiceCall::GateProbe { boundary, gate, result: r }),
    ;

}

/// An environment with nothing but user memory, the console and the clock of
/// `inner`. Every other service is refused, except that a sleep passes at once
/// and no key is ever pressed.
pub struct CoreOnly<E: SyscallEnv> {
    inner: E,
    log: Ghost<Seq<ServiceCall>>,
}

impl<E: SyscallEnv> CoreOnly<E> {
    /// The environment whose core services are used.
    pub closed spec fn base(&self) -> E {
        self.inner
    }

    /// Use the core services of `inner`.
    pub fn new(inner: E) -> (env: CoreOnly<E>)
        ensures
            env.base() == inner,
            env.trace() == Seq::<ServiceCall>::empty(),
    {
        CoreOnly { inner, log: Ghost(Seq::empty()) }
    }

    /// Give the underlying environment back.
    pub fn into_inner(self) -> (inner: E)
        ensures
            inner == self.base(),
    {
        self.inner
    }
}

impl<E: SyscallEnv> SyscallEnv for CoreOnly<E> {
    closed spec fn trace(&self) -> Seq<ServiceCall> {
        self.log@
    }

    fn copy_from_user(&mut self, boundary: BoundaryId, ptr: u64, len: usize, out: &mut [u8]) -> (r: Result<(), SyscallError>)
        ensures
            final(self).base().trace() == old(self).base().trace().push(ServiceCall::CopyIn { boundary, ptr, len, out: final(out)@, result: r }),
    {
        let r: Result<(), SyscallError> = self.inner.copy_from_user(boundary, ptr, len, out);
        proof {
            self.log@ = self.log@.push(ServiceCall::CopyIn { boundary, ptr, len, out: out@, result: r });
        }
        r
    }

    fn console_write(&mut self, bytes: &[u8])
        ensures
            final(self).base().trace() == old(self).base().trace().push(ServiceCall::ConsoleWrite { bytes: bytes@ }),
    {
        self.inner.console_write(bytes);
        proof {
            self.log@ = self.log@.push(ServiceCall::ConsoleWrite { bytes: bytes@ });
        }
    }

    fn now_nanos(&mut self) -> (r: u64)
        ensures
            final(self).base().trace() == old(self).base().trace().push(ServiceCall::NowNanos { result: r }),
    {
        let r: u64 = self.inner.now_nanos();
        proof {
            self.log@ = self.log@.push(ServiceCall::NowNanos { result: r });
        }
        r
    }

    fn copy_to_user(&mut self, boundary: BoundaryId, ptr: u64, bytes: &[u8]) -> (r: Result<(), SyscallError>)
        ensures
            final(self).base().trace() == old(self).base().trace().push(ServiceCall::CopyOut { boundary, ptr, bytes: bytes@, result: r }),
    {
        let r: Result<(), SyscallError> = self.inner.copy_to_user(boundary, ptr, bytes);
        proof {
            self.log@ = self.log@.push(ServiceCall::CopyOut { boundary, ptr, bytes: bytes@, result: r });
        }
        r
    }

    fn fs_read(&mut self, path: &[u8]) -> (r: Result<Option<Vec<u8>>, SyscallError>)
        ensures
            r == Err::<Option<Vec<u8>>, SyscallError>(SyscallError::NotPermitted),
            final(self).base() == old(self).base(),
    {
        let r: Result<Option<Vec<u8>>, SyscallError> = Err(SyscallError::NotPermitted);
        proof {
            self.log@ = self.log@.push(ServiceCall::FsRead { path: path@, result: file_view(r) });
        }
        r
    }

    fn fs_write(&mut self, path: &[u8], data: &[u8]) -> (r: Result<(), SyscallError>)
        ensures
            r == Err::<(), SyscallError>(SyscallError::NotPermitted),
            final(self).base() == old(self).base(),
    {
        let r: Result<(), SyscallError> = Err(SyscallError::NotPermitted);
        proof {
            self.log@ = self.log@.push(ServiceCall::FsWrite { path: path@, data: data@, result: r });
        }
        r
    }

    fn fs_mkdir(&mut self, path: &[u8]) -> (r: Result<(), SyscallError>)
        ensures
            r == Err::<(), SyscallError>(SyscallError::NotPermitted),
            final(self).base() == old(self).base(),
    {
        let r: Result<(), SyscallError> = Err(SyscallError::NotPermitted);
        proof {
            self.log@ = self.log@.push(ServiceCall::FsMkdir { path: path@, result: r });
        }
        r
    }

    fn fs_exists(&mut self, path: &[u8]) -> (r: Result<bool, SyscallError>)
        ensures
            r == Err::<bool, SyscallError>(SyscallError::NotPermitted),
            final(self).base() == old(self).base(),
    {
        let r: Result<bool, SyscallError> = Err(SyscallError::NotPermitted);
        proof {
            self.log@ = self.log@.push(ServiceCall::FsExists { path: path@, result: r });
        }
        r
    }

    fn fs_list(&mut self, path: &[u8]) -> (r: Result<Option<Vec<String>>, SyscallError>)
        ensures
            r == Err::<Option<Vec<String>>, SyscallError>(SyscallError::NotPermitted),
            final(self).base() == old(self).base(),
    {
        let r: Result<Option<Vec<String>>, SyscallError> = Err(SyscallError::NotPermitted);
        proof {
            self.log@ = self.log@.push(ServiceCall::FsList { path: path@, result: names_view(r) });
        }
        r
    }

    fn fs_delete(&mut self, path: &[u8]) -> (r: Result<(), SyscallError>)
        ensures
            r == Err::<(), SyscallError>(SyscallError::NotPermitted),
            final(self).base() == old(self).base(),
    {
        let r: Result<(), SyscallError> = Err(SyscallError::NotPermitted);
        proof {
            self.log@ = self.log@.push(ServiceCall::FsDelete { path: path@, result: r });
        }
        r
    }

    fn sleep_nanos(&mut self, nanos: u64) -> (r: Result<(), SyscallError>)
        ensures
            r is Ok,
            final(self).base() == old(self).base(),
    {
        let r: Result<(), SyscallError> = Ok(());
        proof {
            self.log@ = self.log@.push(ServiceCall::SleepNanos { nanos, result: r });
        }
        r
    }

    fn read_key(&mut self, blocking: bool) -> (r: i64)
        ensures
            r == error_return(SyscallError::NotFound),
            final(self).base() == old(self).base(),
    {
        let r: i64 = SyscallError::NotFound.as_return();
        proof {
            self.log@ = self.log@.push(ServiceCall::ReadKey { blocking, result: r });
        }
        r
    }

    fn fill_random(&mut self, out: &mut [u8]) -> (r: Result<(), SyscallError>)
        ensures
            r == Err::<(), SyscallError>(SyscallError::NotPermitted),
            final(self).base() == old(self).base(),
    {
        let r: Result<(), SyscallError> = Err(SyscallError::NotPermitted);
        proof {
            self.log@ = self.log@.push(ServiceCall::FillRandom { out: out@, result: r });
        }
        r
    }

    fn open_channel(&mut self, boundary: BoundaryId, capacity: usize, max_message_bytes: usize) -> (r: Result<u64, SyscallError>)
        ensures
            r == Err::<u64, SyscallError>(SyscallError::NotPermitted),
            final(self).base() == old(self).base(),
    {
        let r: Result<u64, SyscallError> = Err(SyscallError::NotPermitted);
        proof {
            self.log@ = self.log@.push(ServiceCall::OpenChannel { boundary, capacity, max_message_bytes, result: r });
        }
        r
    }

    fn channel_send(&mut self, boundary: BoundaryId, handle: u64, data: &[u8]) -> (r: Result<(), SyscallError>)
        ensures
            r == Err::<(), SyscallError>(SyscallError::NotPermitted),
            final(self).base() == old(self).base(),
    {
        let r: Result<(), SyscallError> = Err(SyscallError::NotPermitted);
        proof {
            self.log@ = self.log@.push(ServiceCall::ChannelSend { boundary, handle, data: data@, result: r });
        }
        r
    }

    fn channel_recv(&mut self, boundary: BoundaryId, handle: u64) -> (r: Result<Vec<u8>, SyscallError>)
        ensures
            r == Err::<Vec<u8>, SyscallError>(SyscallError::NotPermitted),
            final(self).base() == old(self).base(),
    {
        let r: Result<Vec<u8>, SyscallError> = Err(SyscallError::NotPermitted);
        proof {
            self.log@ = self.log@.push(ServiceCall::ChannelRecv { boundary, handle, result: bytes_view(r) });
        }
        r
    }

    fn spawn(&mut self, boundary: BoundaryId, entry: u64, arg: u64) -> (r: Result<u64, SyscallError>)
        ensures
            r == Err::<u64, SyscallError>(SyscallError::NotPermitted),
            final(self).base() == old(self).base(),
    {
        let r: Result<u64, SyscallError> = Err(SyscallError::NotPermitted);
        proof {
            self.log@ = self.log@.push(ServiceCall::Spawn { boundary, entry, arg, result: r });
        }
        r
    }

    fn request_channel(&mut self, requester: BoundaryId, target: BoundaryId, terms: &ChannelTerms) -> (r: Result<u64, SyscallError>)
        ensures
            r == Err::<u64, SyscallError>(SyscallError::NotPermitted),
            final(self).base() == old(self).base(),
    {
        let r: Result<u64, SyscallError> = Err(SyscallError::NotPermitted);
        proof {
            self.log@ = self.log@.push(ServiceCall::RequestChannel { requester, target, terms: terms@, result: r });
        }
        r
    }

    fn poll_channel_request(&mut self, target: BoundaryId, out: &mut [u8]) -> (r: Result<u64, SyscallError>)
        ensures
            r == Err::<u64, SyscallError>(SyscallError::NotPermitted),
            final(self).base() == old(self).base(),
    {
        let r: Result<u64, SyscallError> = Err(SyscallError::NotPermitted);
        proof {
            self.log@ = self.log@.push(ServiceCall::PollChannelRequest { target, out: out@, result: r });
        }
        r
    }

    fn accept_channel(&mut self, target: BoundaryId, request_id: u64) -> (r: Result<u64, SyscallError>)
        ensures
            r == Err::<u64, SyscallError>(SyscallError::NotPermitted),
            final(self).base() == old(self).base(),
    {
        let r: Result<u64, SyscallError> = Err(SyscallError::NotPermitted);
        proof {
            self.log@ = self.log@.push(ServiceCall::AcceptChannel { target, request_id, result: r });
        }
        r
    }

    fn reject_channel(&mut self, target: BoundaryId, request_id: u64) -> (r: Result<(), SyscallError>)
        ensures
            r == Err::<(), SyscallError>(SyscallError::NotPermitted),
            final(self).base() == old(self).base(),
    {
        let r: Result<(), SyscallError> = Err(SyscallError::NotPermitted);
        proof {
            self.log@ = self.log@.push(ServiceCall::RejectChannel { target, request_id, result: r });
        }
        r
    }

    fn poll_channel_outcome(&mut self, requester: BoundaryId, request_id: u64) -> (r: Result<u64, SyscallError>)
        ensures
            r == Err::<u64, SyscallError>(SyscallError::NotPermitted),
            final(self).base() == old(self).base(),
    {
        let r: Result<u64, SyscallError> = Err(SyscallError::NotPermitted);
        proof {
            self.log@ = self.log@.push(ServiceCall::PollChannelOutcome { requester, request_id, result: r });
        }
        r
    }

    fn gate_bind(&mut self, owner: BoundaryId, gate: u16) -> (r: Result<u64, SyscallError>)
        ensures
            r == Err::<u64, SyscallError>(SyscallError::NotPermitted),
            final(self).base() == old(self).base(),
    {
        let r: Result<u64, SyscallError> = Err(SyscallError::NotPermitted);
        proof {
            self.log@ = self.log@.push(ServiceCall::GateBind { owner, gate, result: r });
        }
        r
    }

    fn gate_connect(&mut self, from: BoundaryId, gate: u16) -> (r: Result<u64, SyscallError>)
        ensures
            r == Err::<u64, SyscallError>(SyscallError::NotPermitted),
            final(self).base() == old(self).base(),
    {
        let r: Result<u64, SyscallError> = Err(SyscallError::NotPermitted);
        proof {
            self.log@ = self.log@.push(ServiceCall::GateConnect { from, gate, result: r });
        }
        r
    }

    fn gate_accept(&mut self, owner: BoundaryId, gate: u16) -> (r: Result<u64, SyscallError>)
        ensures
            r == Err::<u64, SyscallError>(SyscallError::NotPermitted),
            final(self).base() == old(self).base(),
    {
        let r: Result<u64, SyscallError> = Err(SyscallError::NotPermitted);
        proof {
            self.log@ = self.log@.push(ServiceCall::GateAccept { owner, gate, result: r });
        }
        r
    }

    fn link_send(&mut self, boundary: BoundaryId, handle: u64, data: &[u8]) -> (r: Result<(), SyscallError>)
        ensures
            r == Err::<(), SyscallError>(SyscallError::NotPermitted),
            final(self).base() == old(self).base(),
    {
        let r: Result<(), SyscallError> = Err(SyscallError::NotPermitted);
        proof {
            self.log@ = self.log@.push(ServiceCall::LinkSend { boundary, handle, data: data@, result: r });
        }
        r
    }

    fn link_recv(&mut self, boundary: BoundaryId, handle: u64) -> (r: Result<Vec<u8>, SyscallError>)
        ensures
            r == Err::<Vec<u8>, SyscallError>(SyscallError::NotPermitted),
            final(self).base() == old(self).base(),
    {
        let r: Result<Vec<u8>, SyscallError> = Err(SyscallError::NotPermitted);
        proof {
            self.log@ = self.log@.push(ServiceCall::LinkRecv { boundary, handle, result: bytes_view(r) });
        }
        r
    }

    fn link_close(&mut self, boundary: BoundaryId, handle: u64) -> (r: Result<(), SyscallError>)
        ensures
            r == Err::<(), SyscallError>(SyscallError::NotPermitted),
            final(self).base() == old(self).base(),
    {
        let r: Result<(), SyscallError> = Err(SyscallError::NotPermitted);
        proof {
            self.log@ = self.log@.push(ServiceCall::LinkClose { boundary, handle, result: r });
        }
        r
    }

    fn warden_set(&mut self, boundary: BoundaryId, gate: u16, allow: bool) -> (r: Result<(), SyscallError>)
        ensures
            r == Err::<(), SyscallError>(SyscallError::NotPermitted),
            final(self).base() == old(self).base(),
    {
        let r: Result<(), SyscallError> = Err(SyscallError::NotPermitted);
        proof {
            self.log@ = self.log@.push(ServiceCall::WardenSet { boundary, gate, allow, result: r });
        }
        r
    }

    fn gate_probe(&mut self, boundary: BoundaryId, gate: u16) -> (r: Result<u64, SyscallError>)
        ensures
            r == Err::<u64, SyscallError>(SyscallError::NotPermitted),
            final(self).base() == old(self).base(),
    {
        let r: Result<u64, SyscallError> = Err(SyscallError::NotPermitted);
        proof {
            self.log@ = self.log@.push(ServiceCall::GateProbe { boundary, gate, result: r });
        }
        r
    }

}

} // verus!

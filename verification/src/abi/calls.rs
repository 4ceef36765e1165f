//! The system-call interface: call numbers, error codes and argument blocks.
use vstd::prelude::*;
use crate::kernel::bytes::{
    get_le64, le64_at, le64_bytes, le64_is_little_endian, lemma_le64, push_le64, word_le,
};

verus! {

/// A system call.
#[derive(Debug, Clone, Copy, PartialEq, Eq, Structural)]
pub enum Syscall {
    /// Write bytes to the console.
    Log,
    /// End the calling lane.
    Exit,
    /// Give up the processor.
    Yield,
    /// Read the monotonic clock.
    Now,
    /// Read a file.
    FsRead,
    /// Write a file.
    FsWrite,
    /// Create a directory.
    FsMkdir,
    /// Ask whether a path exists.
    FsExists,
    /// Read a key event.
    ReadKey,
    /// Fill a buffer with random bytes.
    GetRandom,
    /// List a directory.
    FsList,
    /// Remove a file.
    FsDelete,
    /// Sleep for a duration.
    Sleep,
    /// Open a channel within the boundary.
    OpenChannel,
    /// Send a message.
    ChannelSend,
    /// Receive a message.
    ChannelRecv,
    /// Start a lane.
    Spawn,
    /// Ask another boundary for a channel.
    RequestChannel,
    /// Look for a request addressed to the caller.
    PollChannelRequest,
    /// Accept a request.
    AcceptChannel,
    /// Reject a request.
    RejectChannel,
    /// Learn how a request was answered.
    PollChannelOutcome,
    /// Bind a gate.
    GateBind,
    /// Connect to a gate.
    GateConnect,
    /// Accept a connection on a gate.
    GateAccept,
    /// Send over a link.
    LinkSend,
    /// Receive over a link.
    LinkRecv,
    /// Close a link.
    LinkClose,
    /// Set the warden's rule for a gate.
    WardenSet,
    /// Ask for the state of a gate.
    GateProbe,
}

/// The number that selects `call` in the number register.
pub open spec fn call_number(call: Syscall) -> u64 {
    match call {
        Syscall::Log => 0,
        Syscall::Exit => 1,
        Syscall::Yield => 2,
        Syscall::Now => 3,
        Syscall::FsRead => 4,
        Syscall::FsWrite => 5,
        Syscall::FsMkdir => 6,
        Syscall::FsExists => 7,
        Syscall::ReadKey => 8,
        Syscall::GetRandom => 9,
        Syscall::FsList => 10,
        Syscall::FsDelete => 11,
        Syscall::Sleep => 12,
        Syscall::OpenChannel => 13,
        Syscall::ChannelSend => 14,
        Syscall::ChannelRecv => 15,
        Syscall::Spawn => 16,
        Syscall::RequestChannel => 17,
        Syscall::PollChannelRequest => 18,
        Syscall::AcceptChannel => 19,
        Syscall::RejectChannel => 20,
        Syscall::PollChannelOutcome => 21,
        Syscall::GateBind => 22,
        Syscall::GateConnect => 23,
        Syscall::GateAccept => 24,
        Syscall::LinkSend => 25,
        Syscall::LinkRecv => 26,
        Syscall::LinkClose => 27,
        Syscall::WardenSet => 28,
        Syscall::GateProbe => 29,
    }
}

/// The call that `number` selects, if any.
pub open spec fn call_of(number: u64) -> Option<Syscall> {
    if number == 0 {
        Some(Syscall::Log)
    } else if number == 1 {
        Some(Syscall::Exit)
    } else if number == 2 {
        Some(Syscall::Yield)
    } else if number == 3 {
        Some(Syscall::Now)
    } else if number == 4 {
        Some(Syscall::FsRead)
    } else if number == 5 {
        Some(Syscall::FsWrite)
    } else if number == 6 {
        Some(Syscall::FsMkdir)
    } else if number == 7 {
        Some(Syscall::FsExists)
    } else if number == 8 {
        Some(Syscall::ReadKey)
    } else if number == 9 {
        Some(Syscall::GetRandom)
    } else if number == 10 {
        Some(Syscall::FsList)
    } else if number == 11 {
        Some(Syscall::FsDelete)
    } else if number == 12 {
        Some(Syscall::Sleep)
    } else if number == 13 {
        Some(Syscall::OpenChannel)
    } else if number == 14 {
        Some(Syscall::ChannelSend)
    } else if number == 15 {
        Some(Syscall::ChannelRecv)
    } else if number == 16 {
        Some(Syscall::Spawn)
    } else if number == 17 {
        Some(Syscall::RequestChannel)
    } else if number == 18 {
        Some(Syscall::PollChannelRequest)
    } else if number == 19 {
        Some(Syscall::AcceptChannel)
    } else if number == 20 {
        Some(Syscall::RejectChannel)
    } else if number == 21 {
        Some(Syscall::PollChannelOutcome)
    } else if number == 22 {
        Some(Syscall::GateBind)
    } else if number == 23 {
        Some(Syscall::GateConnect)
    } else if number == 24 {
        Some(Syscall::GateAccept)
    } else if number == 25 {
        Some(Syscall::LinkSend)
    } else if number == 26 {
        Some(Syscall::LinkRecv)
    } else if number == 27 {
        Some(Syscall::LinkClose)
    } else if number == 28 {
        Some(Syscall::WardenSet)
    } else if number == 29 {
        Some(Syscall::GateProbe)
    } else {
        None
    }
}

impl Syscall {
    /// The number that selects the call.
    pub fn number(self) -> (n: u64)
        ensures
            n == call_number(self),
    {
        match self {
            Syscall::Log => 0,
            Syscall::Exit => 1,
            Syscall::Yield => 2,
            Syscall::Now => 3,
            Syscall::FsRead => 4,
            Syscall::FsWrite => 5,
            Syscall::FsMkdir => 6,
            Syscall::FsExists => 7,
            Syscall::ReadKey => 8,
            Syscall::GetRandom => 9,
            Syscall::FsList => 10,
            Syscall::FsDelete => 11,
            Syscall::Sleep => 12,
            Syscall::OpenChannel => 13,
            Syscall::ChannelSend => 14,
            Syscall::ChannelRecv => 15,
            Syscall::Spawn => 16,
            Syscall::RequestChannel => 17,
            Syscall::PollChannelRequest => 18,
            Syscall::AcceptChannel => 19,
            Syscall::RejectChannel => 20,
            Syscall::PollChannelOutcome => 21,
            Syscall::GateBind => 22,
            Syscall::GateConnect => 23,
            Syscall::GateAccept => 24,
            Syscall::LinkSend => 25,
            Syscall::LinkRecv => 26,
            Syscall::LinkClose => 27,
            Syscall::WardenSet => 28,
            Syscall::GateProbe => 29,
        }
    }

    /// The call that `number` selects, if any.
    pub fn from_number(number: u64) -> (r: Option<Syscall>)
        ensures
            r == call_of(number),
    {
        match number {
            0 => Some(Syscall::Log),
            1 => Some(Syscall::Exit),
            2 => Some(Syscall::Yield),
            3 => Some(Syscall::Now),
            4 => Some(Syscall::FsRead),
            5 => Some(Syscall::FsWrite),
            6 => Some(Syscall::FsMkdir),
            7 => Some(Syscall::FsExists),
            8 => Some(Syscall::ReadKey),
            9 => Some(Syscall::GetRandom),
            10 => Some(Syscall::FsList),
            11 => Some(Syscall::FsDelete),
            12 => Some(Syscall::Sleep),
            13 => Some(Syscall::OpenChannel),
            14 => Some(Syscall::ChannelSend),
            15 => Some(Syscall::ChannelRecv),
            16 => Some(Syscall::Spawn),
            17 => Some(Syscall::RequestChannel),
            18 => Some(Syscall::PollChannelRequest),
            19 => Some(Syscall::AcceptChannel),
            20 => Some(Syscall::RejectChannel),
            21 => Some(Syscall::PollChannelOutcome),
            22 => Some(Syscall::GateBind),
            23 => Some(Syscall::GateConnect),
            24 => Some(Syscall::GateAccept),
            25 => Some(Syscall::LinkSend),
            26 => Some(Syscall::LinkRecv),
            27 => Some(Syscall::LinkClose),
            28 => Some(Syscall::WardenSet),
            29 => Some(Syscall::GateProbe),
            _ => None,
        }
    }
}

/// Every call has one number, and every number at most one call.
pub proof fn call_numbers_round_trip(call: Syscall, number: u64)
    ensures
        call_of(call_number(call)) == Some(call),
        call_of(number) matches Some(c) ==> call_number(c) == number,
{
}

/// Why a system call failed.
#[derive(Debug, Clone, Copy, PartialEq, Eq, Structural)]
pub enum SyscallError {
    /// The number selects no call.
    NoSuchCall,
    /// An argument is out of range.
    InvalidArgument,
    /// A user address is not mapped for the caller.
    BadAddress,
    /// The caller may not do this.
    NotPermitted,
    /// What was asked for does not exist.
    NotFound,
    /// The call would have to wait.
    WouldBlock,
}

/// The value in the return register that reports `e`.
pub open spec fn error_return(e: SyscallError) -> i64 {
    match e {
        SyscallError::NoSuchCall => -1i64,
        SyscallError::InvalidArgument => -2i64,
        SyscallError::BadAddress => -3i64,
        SyscallError::NotPermitted => -4i64,
        SyscallError::NotFound => -5i64,
        SyscallError::WouldBlock => -6i64,
    }
}

impl SyscallError {
    /// The value in the return register that reports the error.
    pub fn as_return(self) -> (r: i64)
        ensures
            r == error_return(self),
    {
        match self {
            SyscallError::NoSuchCall => -1,
            SyscallError::InvalidArgument => -2,
            SyscallError::BadAddress => -3,
            SyscallError::NotPermitted => -4,
            SyscallError::NotFound => -5,
            SyscallError::WouldBlock => -6,
        }
    }
}

/// Errors are reported by negative values, one for each.
pub proof fn error_returns_are_distinct(a: SyscallError, b: SyscallError)
    ensures
        error_return(a) < 0,
        error_return(a) == error_return(b) ==> a == b,
{
}

/// Bytes of an [`FsRwArgs`] block.
pub const FS_RW_ARGS_LEN: usize = 32;

/// The argument block of the calls that take a path and a buffer: four
/// little-endian words in user memory.
#[derive(Debug, Clone, Copy, PartialEq, Eq, Structural)]
pub struct FsRwArgs {
    /// Where the path stands.
    pub path_ptr: u64,
    /// How many bytes the path has.
    pub path_len: u64,
    /// Where the buffer stands.
    pub buf_ptr: u64,
    /// How many bytes the buffer has.
    pub buf_len: u64,
}

/// The bytes of an argument block.
pub open spec fn rw_args_bytes(a: FsRwArgs) -> Seq<u8> {
    le64_bytes(a.path_ptr) + le64_bytes(a.path_len) + le64_bytes(a.buf_ptr) + le64_bytes(a.buf_len)
}

/// The argument block that 32 bytes stand for.
pub open spec fn rw_args_of(s: Seq<u8>) -> FsRwArgs {
    FsRwArgs {
        path_ptr: le64_at(s, 0),
        path_len: le64_at(s, 8),
        buf_ptr: le64_at(s, 16),
        buf_len: le64_at(s, 24),
    }
}

impl FsRwArgs {
    /// Encode the block.
    pub fn to_bytes(&self) -> (out: Vec<u8>)
        ensures
            out@ == rw_args_bytes(*self),
    {
        let mut out: Vec<u8> = Vec::new();
        push_le64(&mut out, self.path_ptr);
        push_le64(&mut out, self.path_len);
        push_le64(&mut out, self.buf_ptr);
        push_le64(&mut out, self.buf_len);
        assert(out@ =~= rw_args_bytes(*self));
        out
    }

    /// Decode a block.
    pub fn from_bytes(buf: &[u8]) -> (a: FsRwArgs)
        requires
            buf@.len() == 32,
        ensures
            a == rw_args_of(buf@),
    {
        FsRwArgs {
            path_ptr: get_le64(buf, 0),
            path_len: get_le64(buf, 8),
            buf_ptr: get_le64(buf, 16),
            buf_len: get_le64(buf, 24),
        }
    }
}

/// An argument block decodes to itself.
pub proof fn rw_args_round_trip(a: FsRwArgs)
    ensures
        rw_args_bytes(a).len() == 32,
        rw_args_of(rw_args_bytes(a)) == a,
{
    lemma_le64(a.path_ptr);
    lemma_le64(a.path_len);
    lemma_le64(a.buf_ptr);
    lemma_le64(a.buf_len);
    let s = rw_args_bytes(a);
    assert(s.subrange(0, 8) =~= le64_bytes(a.path_ptr));
    assert(s.subrange(8, 16) =~= le64_bytes(a.path_len));
    assert(s.subrange(16, 24) =~= le64_bytes(a.buf_ptr));
    assert(s.subrange(24, 32) =~= le64_bytes(a.buf_len));
}

/// The numbers are fixed: programs built against them keep working. A call has the number
/// that selects it, and a number from 30 on selects none.
pub proof fn call_numbers_are_fixed(call: Syscall, n: u64, selected: Option<Syscall>)
    requires
        call_ensures(Syscall::number, (call,), n),
        call_ensures(Syscall::from_number, (n,), selected),
    ensures
        selected == Some(call),
        call is Log <==> n == 0,
        call is Exit <==> n == 1,
        call is Yield <==> n == 2,
        call is Now <==> n == 3,
        call is FsRead <==> n == 4,
        call is FsWrite <==> n == 5,
        call is FsMkdir <==> n == 6,
        call is FsExists <==> n == 7,
        call is ReadKey <==> n == 8,
        call is GetRandom <==> n == 9,
        call is FsList <==> n == 10,
        call is FsDelete <==> n == 11,
        call is Sleep <==> n == 12,
        call is OpenChannel <==> n == 13,
        call is ChannelSend <==> n == 14,
        call is ChannelRecv <==> n == 15,
        call is Spawn <==> n == 16,
        call is RequestChannel <==> n == 17,
        call is PollChannelRequest <==> n == 18,
        call is AcceptChannel <==> n == 19,
        call is RejectChannel <==> n == 20,
        call is PollChannelOutcome <==> n == 21,
        call is GateBind <==> n == 22,
        call is GateConnect <==> n == 23,
        call is GateAccept <==> n == 24,
        call is LinkSend <==> n == 25,
        call is LinkRecv <==> n == 26,
        call is LinkClose <==> n == 27,
        call is WardenSet <==> n == 28,
        call is GateProbe <==> n == 29,
{
}

/// As [`call_numbers_are_fixed`], from the number.
pub proof fn numbers_select_their_calls(
    n: u64,
    selected: Option<Syscall>,
    call: Syscall,
    back: u64,
)
    requires
        call_ensures(Syscall::from_number, (n,), selected),
        selected == Some(call) || selected is None,
        call_ensures(Syscall::number, (call,), back),
    ensures
        selected is Some <==> n <= 29,
        selected is Some ==> back == n,
{
}

/// The values that report errors are fixed: no such call, an invalid argument, a bad
/// address, not permitted, not found and would block, from -1 down.
pub proof fn error_values_are_fixed(e: SyscallError, r: i64)
    requires
        call_ensures(SyscallError::as_return, (e,), r),
    ensures
        e is NoSuchCall <==> r == -1,
        e is InvalidArgument <==> r == -2,
        e is BadAddress <==> r == -3,
        e is NotPermitted <==> r == -4,
        e is NotFound <==> r == -5,
        e is WouldBlock <==> r == -6,
{
}

/// Where the words of an argument block stand, each little-endian: the path's address and
/// length, the buffer's address and length.
pub proof fn rw_args_layout(
    a: FsRwArgs,
    out: Vec<u8>,
    buf: &[u8],
    read: FsRwArgs,
)
    requires
        call_ensures(FsRwArgs::to_bytes, (&a,), out),
        buf@.len() == 32,
        call_ensures(FsRwArgs::from_bytes, (buf,), read),
    ensures
        out@.len() == 32,
        word_le(out@, 0) == a.path_ptr,
        word_le(out@, 8) == a.path_len,
        word_le(out@, 16) == a.buf_ptr,
        word_le(out@, 24) == a.buf_len,
        read.path_ptr == word_le(buf@, 0),
        read.path_len == word_le(buf@, 8),
        read.buf_ptr == word_le(buf@, 16),
        read.buf_len == word_le(buf@, 24),
        buf@ == out@ ==> read == a,
{
    rw_args_round_trip(a);
    le64_is_little_endian(out@, 0);
    le64_is_little_endian(out@, 8);
    le64_is_little_endian(out@, 16);
    le64_is_little_endian(out@, 24);
    le64_is_little_endian(buf@, 0);
    le64_is_little_endian(buf@, 8);
    le64_is_little_endian(buf@, 16);
    le64_is_little_endian(buf@, 24);
}

} // verus!

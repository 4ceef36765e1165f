//! Which services each system call asks for, and how it ends.
use vstd::prelude::*;
use crate::abi::calls::{call_of, error_return, rw_args_of, FsRwArgs, Syscall, SyscallError};
use crate::abi::ids::BoundaryId;
use crate::abi::terms::terms_of;
use crate::kernel::syscall_env::{ServiceCall, SyscallOutcome, SyscallRequest};

verus! {

/// The outcome that reports `e`.
pub open spec fn failed(e: SyscallError) -> SyscallOutcome {
    SyscallOutcome::Return(error_return(e))
}

/// A number as a non-negative return value: its low 63 bits.
pub open spec fn clamped(x: u64) -> i64 {
    (x % 0x8000_0000_0000_0000) as i64
}

/// A word as a length: what of it fits in a `usize`.
pub open spec fn as_size(word: u64) -> usize {
    (word as int % (usize::MAX + 1)) as usize
}

/// The outcome of a service that gives nothing back.
pub open spec fn unit_outcome(r: Result<(), SyscallError>) -> SyscallOutcome {
    match r {
        Ok(_) => SyscallOutcome::Return(0),
        Err(e) => failed(e),
    }
}

/// The outcome of a service that gives a number back.
pub open spec fn number_outcome(r: Result<u64, SyscallError>) -> SyscallOutcome {
    match r {
        Ok(x) => SyscallOutcome::Return(clamped(x)),
        Err(e) => failed(e),
    }
}

/// `c` copied `len` bytes in from the user address `ptr` of `boundary`.
pub open spec fn is_copy_in(c: ServiceCall, boundary: BoundaryId, ptr: u64, len: int) -> bool {
    c matches ServiceCall::CopyIn { boundary: b, ptr: p, len: l, out, .. } && b == boundary && p
        == ptr && l == len && out.len() == len
}

/// `c` copied `bytes` out to the user address `ptr` of `boundary`.
pub open spec fn is_copy_out(
    c: ServiceCall,
    boundary: BoundaryId,
    ptr: u64,
    bytes: Seq<u8>,
) -> bool {
    c matches ServiceCall::CopyOut { boundary: b, ptr: p, bytes: s, .. } && b == boundary && p == ptr
        && s == bytes
}

/// The bytes that a copy brought in.
pub open spec fn copied(c: ServiceCall) -> Seq<u8> {
    match c {
        ServiceCall::CopyIn { out, .. } => out,
        _ => Seq::empty(),
    }
}

/// How a copy ended.
pub open spec fn copy_result(c: ServiceCall) -> Result<(), SyscallError> {
    match c {
        ServiceCall::CopyIn { result, .. } => result,
        ServiceCall::CopyOut { result, .. } => result,
        _ => Ok(()),
    }
}

/// Service `i` is the copy of `len` user bytes at `ptr`; where it succeeds, `next`
/// holds of the bytes, and where it fails the call ends with its error.
pub open spec fn after_copy(
    req: SyscallRequest,
    ptr: u64,
    len: int,
    steps: Seq<ServiceCall>,
    i: int,
    out: SyscallOutcome,
    next: spec_fn(Seq<u8>) -> bool,
) -> bool {
    &&& steps.len() > i
    &&& is_copy_in(steps[i], req.boundary, ptr, len)
    &&& match copy_result(steps[i]) {
        Err(e) => steps.len() == i + 1 && out == failed(e),
        Ok(_) => next(copied(steps[i])),
    }
}

/// A path at `ptr`, whose length is the word `len`, is read by service `i`, if its length is
/// acceptable; `next` then holds of it.
pub open spec fn after_path(
    req: SyscallRequest,
    ptr: u64,
    len: u64,
    steps: Seq<ServiceCall>,
    i: int,
    out: SyscallOutcome,
    next: spec_fn(Seq<u8>) -> bool,
) -> bool {
    if as_size(len) == 0 || as_size(len) > 1024 {
        steps.len() == i && out == failed(SyscallError::InvalidArgument)
    } else {
        after_copy(req, ptr, as_size(len) as int, steps, i, out, next)
    }
}

/// The argument block at `arg0` is read by the first service and the path it
/// names by the second; `next` then holds of both.
pub open spec fn after_args_and_path(
    req: SyscallRequest,
    steps: Seq<ServiceCall>,
    out: SyscallOutcome,
    next: spec_fn(FsRwArgs, Seq<u8>) -> bool,
) -> bool {
    after_copy(
        req,
        req.arg0,
        32,
        steps,
        0,
        out,
        |raw: Seq<u8>|
            {
                let args = rw_args_of(raw);
                if as_size(args.buf_len) > 65536 {
                    steps.len() == 1 && out == failed(SyscallError::InvalidArgument)
                } else {
                    after_path(
                        req,
                        args.path_ptr,
                        args.path_len,
                        steps,
                        1,
                        out,
                        |path: Seq<u8>| next(args, path),
                    )
                }
            },
    )
}

/// Service `i` copies `bytes` to the user at `ptr`, and the call ends with `value`
/// or the copy's error.
pub open spec fn ends_with_copy_out(
    req: SyscallRequest,
    ptr: u64,
    bytes: Seq<u8>,
    steps: Seq<ServiceCall>,
    i: int,
    value: i64,
    out: SyscallOutcome,
) -> bool {
    &&& steps.len() == i + 1
    &&& is_copy_out(steps[i], req.boundary, ptr, bytes)
    &&& out == match copy_result(steps[i]) {
        Ok(_) => SyscallOutcome::Return(value),
        Err(e) => failed(e),
    }
}

/// The smaller of two lengths.
pub open spec fn shorter(a: nat, b: nat) -> nat {
    if a < b {
        a
    } else {
        b
    }
}

/// Names joined by newlines.
pub open spec fn joined(names: Seq<Seq<u8>>) -> Seq<u8>
    decreases names.len(),
{
    if names.len() == 0 {
        Seq::empty()
    } else if names.len() == 1 {
        names[0]
    } else {
        joined(names.drop_last()) + seq![10u8] + names.last()
    }
}

/// `log`: the text at `arg0`, of `arg1` bytes, goes to the console.
pub open spec fn log_served(
    req: SyscallRequest,
    steps: Seq<ServiceCall>,
    out: SyscallOutcome,
) -> bool {
    if as_size(req.arg1) > 4096 {
        steps.len() == 0 && out == failed(SyscallError::InvalidArgument)
    } else {
        after_copy(
            req,
            req.arg0,
            as_size(req.arg1) as int,
            steps,
            0,
            out,
            |text: Seq<u8>|
                {
                    &&& steps.len() == 2
                    &&& steps[1] == ServiceCall::ConsoleWrite { bytes: text }
                    &&& out == SyscallOutcome::Return(0)
                },
        )
    }
}

/// `fs_read`: the file goes to the user's buffer, cut to its length.
pub open spec fn fs_read_served(
    req: SyscallRequest,
    steps: Seq<ServiceCall>,
    out: SyscallOutcome,
) -> bool {
    after_args_and_path(
        req,
        steps,
        out,
        |args: FsRwArgs, path: Seq<u8>|
            {
                &&& steps.len() > 2
                &&& steps[2] matches ServiceCall::FsRead { path: p, result } && p == path
                    && match result {
                    Err(e) => steps.len() == 3 && out == failed(e),
                    Ok(None) => steps.len() == 3 && out == failed(SyscallError::NotFound),
                    Ok(Some(data)) => {
                        let n = shorter(data.len(), as_size(args.buf_len) as nat);
                        ends_with_copy_out(
                            req,
                            args.buf_ptr,
                            data.subrange(0, n as int),
                            steps,
                            3,
                            n as i64,
                            out,
                        )
                    },
                }
            },
    )
}

/// `fs_list`: the names, joined by newlines, go to the user's buffer, cut to its
/// length.
pub open spec fn fs_list_served(
    req: SyscallRequest,
    steps: Seq<ServiceCall>,
    out: SyscallOutcome,
) -> bool {
    after_args_and_path(
        req,
        steps,
        out,
        |args: FsRwArgs, path: Seq<u8>|
            {
                &&& steps.len() > 2
                &&& steps[2] matches ServiceCall::FsList { path: p, result } && p == path
                    && match result {
                    Err(e) => steps.len() == 3 && out == failed(e),
                    Ok(None) => steps.len() == 3 && out == failed(SyscallError::NotFound),
                    Ok(Some(names)) => {
                        let n = shorter(joined(names).len(), as_size(args.buf_len) as nat);
                        ends_with_copy_out(
                            req,
                            args.buf_ptr,
                            joined(names).subrange(0, n as int),
                            steps,
                            3,
                            n as i64,
                            out,
                        )
                    },
                }
            },
    )
}

/// `data` is written to `path` by service `i`, and the call ends with its length.
pub open spec fn written_by(
    path: Seq<u8>,
    data: Seq<u8>,
    steps: Seq<ServiceCall>,
    i: int,
    out: SyscallOutcome,
) -> bool {
    &&& steps.len() == i + 1
    &&& steps[i] matches ServiceCall::FsWrite { path: p, data: d, result } && p == path && d == data
        && out == match result {
        Ok(_) => SyscallOutcome::Return(data.len() as i64),
        Err(e) => failed(e),
    }
}

/// `fs_write`: the user's buffer goes to the file. An empty buffer is not copied.
pub open spec fn fs_write_served(
    req: SyscallRequest,
    steps: Seq<ServiceCall>,
    out: SyscallOutcome,
) -> bool {
    after_args_and_path(
        req,
        steps,
        out,
        |args: FsRwArgs, path: Seq<u8>|
            if as_size(args.buf_len) == 0 {
                written_by(path, Seq::empty(), steps, 2, out)
            } else {
                after_copy(
                    req,
                    args.buf_ptr,
                    as_size(args.buf_len) as int,
                    steps,
                    2,
                    out,
                    |data: Seq<u8>| written_by(path, data, steps, 3, out),
                )
            },
    )
}

/// `get_random`: random bytes go to the user's buffer.
pub open spec fn get_random_served(
    req: SyscallRequest,
    steps: Seq<ServiceCall>,
    out: SyscallOutcome,
) -> bool {
    if as_size(req.arg1) == 0 || as_size(req.arg1) > 65536 {
        steps.len() == 0 && out == failed(SyscallError::InvalidArgument)
    } else {
        &&& steps.len() > 0
        &&& steps[0] matches ServiceCall::FillRandom { out: bytes, result } && bytes.len()
            == as_size(req.arg1) && match result {
            Err(e) => steps.len() == 1 && out == failed(e),
            Ok(_) => ends_with_copy_out(
                req,
                req.arg0,
                bytes,
                steps,
                1,
                as_size(req.arg1) as i64,
                out,
            ),
        }
    }
}

/// `channel_send`: the user's bytes go to the channel.
pub open spec fn channel_send_served(
    req: SyscallRequest,
    steps: Seq<ServiceCall>,
    out: SyscallOutcome,
) -> bool {
    if as_size(req.arg2) > 65536 {
        steps.len() == 0 && out == failed(SyscallError::InvalidArgument)
    } else {
        after_copy(
            req,
            req.arg1,
            as_size(req.arg2) as int,
            steps,
            0,
            out,
            |bytes: Seq<u8>|
                {
                    &&& steps.len() == 2
                    &&& steps[1] matches ServiceCall::ChannelSend { boundary, handle, data, result }
                        && boundary == req.boundary && handle == req.arg0 && data == bytes && out
                        == unit_outcome(result)
                },
        )
    }
}

/// `channel_recv`: a message goes to the user's buffer, cut to its length.
pub open spec fn channel_recv_served(
    req: SyscallRequest,
    steps: Seq<ServiceCall>,
    out: SyscallOutcome,
) -> bool {
    if as_size(req.arg2) > 65536 {
        steps.len() == 0 && out == failed(SyscallError::InvalidArgument)
    } else {
        &&& steps.len() > 0
        &&& steps[0] matches ServiceCall::ChannelRecv { boundary, handle, result } && boundary
            == req.boundary && handle == req.arg0 && match result {
            Err(e) => steps.len() == 1 && out == failed(e),
            Ok(msg) => {
                let n = shorter(msg.len(), as_size(req.arg2) as nat);
                ends_with_copy_out(
                    req,
                    req.arg1,
                    msg.subrange(0, n as int),
                    steps,
                    1,
                    n as i64,
                    out,
                )
            },
        }
    }
}

/// `link_send`: the user's bytes go to the link, if an allocation can hold them.
pub open spec fn link_send_served(
    req: SyscallRequest,
    steps: Seq<ServiceCall>,
    out: SyscallOutcome,
) -> bool {
    if as_size(req.arg2) > isize::MAX {
        steps.len() == 0 && out == failed(SyscallError::InvalidArgument)
    } else {
        after_copy(
            req,
            req.arg1,
            as_size(req.arg2) as int,
            steps,
            0,
            out,
            |bytes: Seq<u8>|
                {
                    &&& steps.len() == 2
                    &&& steps[1] matches ServiceCall::LinkSend { boundary, handle, data, result }
                        && boundary == req.boundary && handle == req.arg0 && data == bytes && out
                        == unit_outcome(result)
                },
        )
    }
}

/// `link_recv`: what the link delivered goes to the user's buffer, if it fits.
pub open spec fn link_recv_served(
    req: SyscallRequest,
    steps: Seq<ServiceCall>,
    out: SyscallOutcome,
) -> bool {
    &&& steps.len() > 0
    &&& steps[0] matches ServiceCall::LinkRecv { boundary, handle, result } && boundary
        == req.boundary && handle == req.arg0 && match result {
        Err(e) => steps.len() == 1 && out == failed(e),
        Ok(bytes) => if bytes.len() > as_size(req.arg2) {
            steps.len() == 1 && out == failed(SyscallError::InvalidArgument)
        } else {
            ends_with_copy_out(
                req,
                req.arg1,
                bytes,
                steps,
                1,
                clamped(bytes.len() as u64),
                out,
            )
        },
    }
}

/// `request_channel`: the terms at `arg1` are proposed to boundary `arg0`, which
/// must be another one.
pub open spec fn request_channel_served(
    req: SyscallRequest,
    steps: Seq<ServiceCall>,
    out: SyscallOutcome,
) -> bool {
    if as_size(req.arg2) < 48 {
        steps.len() == 0 && out == failed(SyscallError::InvalidArgument)
    } else {
        after_copy(
            req,
            req.arg1,
            48,
            steps,
            0,
            out,
            |raw: Seq<u8>|
                if terms_of(raw) is None || req.arg0 == req.boundary.0 {
                    steps.len() == 1 && out == failed(SyscallError::InvalidArgument)
                } else {
                    &&& steps.len() == 2
                    &&& steps[1] matches ServiceCall::RequestChannel {
                        requester,
                        target,
                        terms,
                        result,
                    } && requester == req.boundary && target == BoundaryId(req.arg0) && Some(terms)
                        == terms_of(raw) && out == number_outcome(result)
                },
        )
    }
}

/// `poll_channel_request`: the oldest request to the caller goes to its buffer.
pub open spec fn poll_channel_request_served(
    req: SyscallRequest,
    steps: Seq<ServiceCall>,
    out: SyscallOutcome,
) -> bool {
    if as_size(req.arg1) < 56 {
        steps.len() == 0 && out == failed(SyscallError::InvalidArgument)
    } else {
        &&& steps.len() > 0
        &&& steps[0] matches ServiceCall::PollChannelRequest { target, out: bytes, result } && target
            == req.boundary && bytes.len() == 56 && match result {
            Err(e) => steps.len() == 1 && out == failed(e),
            Ok(id) => ends_with_copy_out(req, req.arg0, bytes, steps, 1, clamped(id), out),
        }
    }
}

/// `fs_mkdir`: the directory named by the path is created.
pub open spec fn fs_mkdir_served(
    req: SyscallRequest,
    steps: Seq<ServiceCall>,
    out: SyscallOutcome,
) -> bool {
    after_path(
        req,
        req.arg0,
        req.arg1,
        steps,
        0,
        out,
        |path: Seq<u8>|
            {
                &&& steps.len() == 2
                &&& steps[1] matches ServiceCall::FsMkdir { path: p, result } && p == path && out == unit_outcome(result)
            },
    )
}

/// `fs_exists`: whether the path exists.
pub open spec fn fs_exists_served(
    req: SyscallRequest,
    steps: Seq<ServiceCall>,
    out: SyscallOutcome,
) -> bool {
    after_path(
        req,
        req.arg0,
        req.arg1,
        steps,
        0,
        out,
        |path: Seq<u8>|
            {
                &&& steps.len() == 2
                &&& steps[1] matches ServiceCall::FsExists { path: p, result } && p == path && out == match result {
                    Ok(true) => SyscallOutcome::Return(1),
                    Ok(false) => SyscallOutcome::Return(0),
                    Err(e) => failed(e),
                }
            },
    )
}

/// `fs_delete`: the file named by the path is removed.
pub open spec fn fs_delete_served(
    req: SyscallRequest,
    steps: Seq<ServiceCall>,
    out: SyscallOutcome,
) -> bool {
    after_path(
        req,
        req.arg0,
        req.arg1,
        steps,
        0,
        out,
        |path: Seq<u8>|
            {
                &&& steps.len() == 2
                &&& steps[1] matches ServiceCall::FsDelete { path: p, result } && p == path && out == unit_outcome(result)
            },
    )
}

/// `req` was served by `steps`, in order, and ended with `out`.
pub open spec fn served(
    req: SyscallRequest,
    steps: Seq<ServiceCall>,
    out: SyscallOutcome,
) -> bool {
    match call_of(req.number) {
        None => steps.len() == 0 && out == failed(SyscallError::NoSuchCall),
        Some(Syscall::Log) => log_served(req, steps, out),
        Some(Syscall::Exit) => steps.len() == 0 && out == SyscallOutcome::Exit(req.arg0),
        Some(Syscall::Yield) => steps.len() == 0 && out == SyscallOutcome::Yield,
        Some(Syscall::Now) => steps.len() == 1 && (steps[0] matches ServiceCall::NowNanos { result }
            && out == SyscallOutcome::Return(clamped(result))),
        Some(Syscall::FsRead) => fs_read_served(req, steps, out),
        Some(Syscall::FsWrite) => fs_write_served(req, steps, out),
        Some(Syscall::FsMkdir) => fs_mkdir_served(req, steps, out),
        Some(Syscall::FsExists) => fs_exists_served(req, steps, out),
        Some(Syscall::ReadKey) => steps.len() == 1 && (steps[0] matches ServiceCall::ReadKey {
            blocking,
            result,
        } && blocking == (req.arg0 != 0) && out == SyscallOutcome::Return(result)),
        Some(Syscall::GetRandom) => get_random_served(req, steps, out),
        Some(Syscall::FsList) => fs_list_served(req, steps, out),
        Some(Syscall::FsDelete) => fs_delete_served(req, steps, out),
        Some(Syscall::Sleep) => steps.len() == 1 && (steps[0] matches ServiceCall::SleepNanos {
            nanos,
            result,
        } && nanos == req.arg0 | (req.arg1 << 32) && out == unit_outcome(result)),
        Some(Syscall::OpenChannel) => if as_size(req.arg0) == 0 || as_size(req.arg1) == 0 || as_size(
            req.arg1,
        ) > 65536 {
            steps.len() == 0 && out == failed(SyscallError::InvalidArgument)
        } else {
            steps.len() == 1 && (steps[0] matches ServiceCall::OpenChannel {
                boundary,
                capacity,
                max_message_bytes,
                result,
            } && boundary == req.boundary && capacity == as_size(req.arg0) && max_message_bytes
                == as_size(req.arg1) && out == number_outcome(result))
        },
        Some(Syscall::ChannelSend) => channel_send_served(req, steps, out),
        Some(Syscall::ChannelRecv) => channel_recv_served(req, steps, out),
        Some(Syscall::Spawn) => steps.len() == 1 && (steps[0] matches ServiceCall::Spawn {
            boundary,
            entry,
            arg,
            result,
        } && boundary == req.boundary && entry == req.arg0 && arg == req.arg1 && out
            == number_outcome(result)),
        Some(Syscall::RequestChannel) => request_channel_served(req, steps, out),
        Some(Syscall::PollChannelRequest) => poll_channel_request_served(req, steps, out),
        Some(Syscall::AcceptChannel) => steps.len() == 1 && (
        steps[0] matches ServiceCall::AcceptChannel { target, request_id, result } && target
            == req.boundary && request_id == req.arg0 && out == number_outcome(result)),
        Some(Syscall::RejectChannel) => steps.len() == 1 && (
        steps[0] matches ServiceCall::RejectChannel { target, request_id, result } && target
            == req.boundary && request_id == req.arg0 && out == unit_outcome(result)),
        Some(Syscall::PollChannelOutcome) => steps.len() == 1 && (
        steps[0] matches ServiceCall::PollChannelOutcome { requester, request_id, result }
            && requester == req.boundary && request_id == req.arg0 && out == number_outcome(result)),
        Some(Syscall::GateBind) => if req.arg0 > 65535 {
            steps.len() == 0 && out == failed(SyscallError::InvalidArgument)
        } else {
            steps.len() == 1 && (steps[0] matches ServiceCall::GateBind { owner, gate, result }
                && owner == req.boundary && gate == req.arg0 && out == number_outcome(result))
        },
        Some(Syscall::GateConnect) => if req.arg0 > 65535 {
            steps.len() == 0 && out == failed(SyscallError::InvalidArgument)
        } else {
            steps.len() == 1 && (steps[0] matches ServiceCall::GateConnect { from, gate, result }
                && from == req.boundary && gate == req.arg0 && out == number_outcome(result))
        },
        Some(Syscall::GateAccept) => if req.arg0 > 65535 {
            steps.len() == 0 && out == failed(SyscallError::InvalidArgument)
        } else {
            steps.len() == 1 && (steps[0] matches ServiceCall::GateAccept { owner, gate, result }
                && owner == req.boundary && gate == req.arg0 && out == number_outcome(result))
        },
        Some(Syscall::LinkSend) => link_send_served(req, steps, out),
        Some(Syscall::LinkRecv) => link_recv_served(req, steps, out),
        Some(Syscall::LinkClose) => steps.len() == 1 && (steps[0] matches ServiceCall::LinkClose {
            boundary,
            handle,
            result,
        } && boundary == req.boundary && handle == req.arg0 && out == unit_outcome(result)),
        Some(Syscall::WardenSet) => if req.arg0 > 65535 {
            steps.len() == 0 && out == failed(SyscallError::InvalidArgument)
        } else {
            steps.len() == 1 && (steps[0] matches ServiceCall::WardenSet {
                boundary,
                gate,
                allow,
                result,
            } && boundary == req.boundary && gate == req.arg0 && allow == (req.arg1 != 0) && out
                == unit_outcome(result))
        },
        Some(Syscall::GateProbe) => if req.arg0 > 65535 {
            steps.len() == 0 && out == failed(SyscallError::InvalidArgument)
        } else {
            steps.len() == 1 && (steps[0] matches ServiceCall::GateProbe { boundary, gate, result }
                && boundary == req.boundary && gate == req.arg0 && out == number_outcome(result))
        },
    }
}

/// The services performed since the trace was `before`.
pub open spec fn since(before: Seq<ServiceCall>, after: Seq<ServiceCall>) -> Seq<ServiceCall> {
    after.subrange(before.len() as int, after.len() as int)
}

/// A trace that was only added to.
pub open spec fn extends(before: Seq<ServiceCall>, after: Seq<ServiceCall>) -> bool {
    before.is_prefix_of(after)
}

} // verus!

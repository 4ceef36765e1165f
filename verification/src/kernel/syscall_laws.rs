//! What each system call means: which service it asks for on the caller's behalf, with
//! which of its arguments, and what it tells the caller.
use vstd::arithmetic::div_mod::lemma_small_mod;
use vstd::prelude::*;
use crate::abi::calls::{error_return, Syscall, SyscallError};
use crate::abi::ids::BoundaryId;
use crate::abi::terms::{terms_of, Terms};
use crate::kernel::bytes::{le64_is_little_endian, word_le};
use crate::kernel::gate::{Gate, GateRegistry, GateState, Gates};
use crate::kernel::syscall::dispatch;
use crate::kernel::syscall_model::{as_size, joined};
use crate::kernel::syscall_env::{ServiceCall, SyscallEnv, SyscallOutcome, SyscallRequest};

verus! {

/// `steps` are the services that were performed from `before` to `after`.
pub open spec fn performed_since(
    before: Seq<ServiceCall>,
    after: Seq<ServiceCall>,
    steps: Seq<ServiceCall>,
) -> bool {
    after == before + steps
}

/// The caller is told that the call failed with `e`.
pub open spec fn tells_error(out: SyscallOutcome, e: SyscallError) -> bool {
    out matches SyscallOutcome::Return(v) && v < 0 && v == error_return(e)
}

/// The caller is told `x`, or what of it fits in 63 bits.
pub open spec fn tells_number(out: SyscallOutcome, x: int) -> bool {
    out matches SyscallOutcome::Return(v) && v >= 0 && (x <= i64::MAX ==> v == x)
}

/// The caller is told how a service without a value ended.
pub open spec fn tells_end(out: SyscallOutcome, r: Result<(), SyscallError>) -> bool {
    match r {
        Ok(_) => tells_number(out, 0),
        Err(e) => tells_error(out, e),
    }
}

/// The caller is told the number that a service gave, or why it gave none.
pub open spec fn tells_result(out: SyscallOutcome, r: Result<u64, SyscallError>) -> bool {
    match r {
        Ok(x) => tells_number(out, x as int),
        Err(e) => tells_error(out, e),
    }
}

proof fn lemma_since(before: Seq<ServiceCall>, after: Seq<ServiceCall>, steps: Seq<ServiceCall>)
    requires
        performed_since(before, after, steps),
    ensures
        after.subrange(before.len() as int, after.len() as int) == steps,
        forall|word: u64| #![trigger as_size(word)] word <= usize::MAX ==> as_size(word) == word,
{
    assert forall|word: u64| #![trigger as_size(word)] word <= usize::MAX implies as_size(word)
        == word by {
        lemma_small_mod(word as nat, (usize::MAX + 1) as nat);
    }
    assert(after.subrange(before.len() as int, after.len() as int) =~= steps);
}

/// A number that selects no call, the end of a lane, and giving up the processor ask for
/// no service: the first is an error, the second ends the lane with the first argument,
/// the third asks to run others. The clock and the keyboard are each asked once, the
/// keyboard to wait exactly where the first argument is not zero, and the caller is told
/// what they gave. A sleep lasts as long as its two words say, the second counting 2^32
/// for each unit of the first.
pub proof fn plain_calls_mean<E: SyscallEnv>(
    req: &SyscallRequest,
    env: &mut E,
    out: SyscallOutcome,
    steps: Seq<ServiceCall>,
    call: Syscall,
    number: u64,
)
    requires
        call_ensures(dispatch::<E>, (req, env), out),
        performed_since(old(env).trace(), final(env).trace(), steps),
        call_ensures(Syscall::number, (call,), number),
    ensures
        req.number > 29 ==> steps.len() == 0 && tells_error(out, SyscallError::NoSuchCall),
        number <= 29,
        req.number == number ==> {
            &&& call is Exit ==> steps.len() == 0 && out == SyscallOutcome::Exit(req.arg0)
            &&& call is Yield ==> steps.len() == 0 && out is Yield
            &&& call is Now ==> steps.len() == 1 && (steps[0] matches ServiceCall::NowNanos {
                result,
            } && tells_number(out, result as int))
            &&& call is ReadKey ==> steps.len() == 1 && (steps[0] matches ServiceCall::ReadKey {
                blocking,
                result,
            } && (blocking <==> req.arg0 != 0) && out == SyscallOutcome::Return(result))
            &&& call is Sleep ==> steps.len() == 1 && (steps[0] matches ServiceCall::SleepNanos {
                nanos,
                result,
            } && (req.arg0 <= 0xffff_ffff && req.arg1 <= 0xffff_ffff ==> nanos == req.arg0
                + req.arg1 * 0x1_0000_0000) && tells_end(out, result))
        },
{
    lemma_since(old(env).trace(), final(env).trace(), steps);
    let a = req.arg0;
    let b = req.arg1;
    assert(a <= 0xffff_ffff && b <= 0xffff_ffff ==> (a | (b << 32)) == a + b * 0x1_0000_0000u64)
        by (bit_vector);
}

/// The text at the first argument goes to the console, all of it and nothing else.
pub proof fn log_means<E: SyscallEnv>(
    req: &SyscallRequest,
    env: &mut E,
    out: SyscallOutcome,
    steps: Seq<ServiceCall>,
)
    requires
        call_ensures(dispatch::<E>, (req, env), out),
        performed_since(old(env).trace(), final(env).trace(), steps),
        call_ensures(Syscall::number, (Syscall::Log,), req.number),
        req.arg1 <= usize::MAX,
    ensures
        req.arg1 > 4096 ==> steps.len() == 0 && tells_error(out, SyscallError::InvalidArgument),
        req.arg1 <= 4096 ==> steps.len() > 0 && (steps[0] matches ServiceCall::CopyIn {
            boundary,
            ptr,
            len,
            out: text,
            result,
        } && boundary == req.boundary && ptr == req.arg0 && len == req.arg1 && text.len() == len
            && match result {
            Err(e) => steps.len() == 1 && tells_error(out, e),
            Ok(_) => steps.len() == 2 && (steps[1] matches ServiceCall::ConsoleWrite { bytes }
                && bytes == text) && tells_number(out, 0),
        }),
{
    lemma_since(old(env).trace(), final(env).trace(), steps);
}

/// Calls that take a path as address and length: the path is copied from the caller, if it
/// has 1 to 1024 bytes, and the service that the call is for is asked for that path.
pub proof fn path_calls_mean<E: SyscallEnv>(
    req: &SyscallRequest,
    env: &mut E,
    out: SyscallOutcome,
    steps: Seq<ServiceCall>,
    call: Syscall,
)
    requires
        call_ensures(dispatch::<E>, (req, env), out),
        performed_since(old(env).trace(), final(env).trace(), steps),
        call_ensures(Syscall::number, (call,), req.number),
        call is FsMkdir || call is FsExists || call is FsDelete,
        req.arg1 <= usize::MAX,
    ensures
        req.arg1 == 0 || req.arg1 > 1024 ==> steps.len() == 0 && tells_error(
            out,
            SyscallError::InvalidArgument,
        ),
        0 < req.arg1 <= 1024 ==> steps.len() > 0 && (steps[0] matches ServiceCall::CopyIn {
            boundary,
            ptr,
            len,
            out: path,
            result,
        } && boundary == req.boundary && ptr == req.arg0 && len == req.arg1 && path.len() == len
            && match result {
            Err(e) => steps.len() == 1 && tells_error(out, e),
            Ok(_) => steps.len() == 2 && match steps[1] {
                ServiceCall::FsMkdir { path: p, result: r } => call is FsMkdir && p == path
                    && tells_end(out, r),
                ServiceCall::FsDelete { path: p, result: r } => call is FsDelete && p == path
                    && tells_end(out, r),
                ServiceCall::FsExists { path: p, result: r } => call is FsExists && p == path
                    && match r {
                    Ok(found) => tells_number(
                        out,
                        if found {
                            1
                        } else {
                            0
                        },
                    ),
                    Err(e) => tells_error(out, e),
                },
                _ => false,
            },
        }),
{
    lemma_since(old(env).trace(), final(env).trace(), steps);
}

/// Calls that take an argument block. Its 32 bytes are copied from the first argument: four
/// little-endian words, for where the path stands, how long it is, where the buffer stands,
/// how long that is. The path is then copied from the caller. A read asks for the file and
/// gives the caller as much of it as fits in the buffer; a listing does so with the names,
/// a line feed between each two; a write copies the buffer from the caller and stores all
/// of it under the path. The caller is told how many bytes went over.
pub proof fn file_calls_mean<E: SyscallEnv>(
    req: &SyscallRequest,
    env: &mut E,
    out: SyscallOutcome,
    steps: Seq<ServiceCall>,
    call: Syscall,
    block: Seq<u8>,
    path: Seq<u8>,
)
    requires
        call_ensures(dispatch::<E>, (req, env), out),
        performed_since(old(env).trace(), final(env).trace(), steps),
        call_ensures(Syscall::number, (call,), req.number),
        call is FsRead || call is FsWrite || call is FsList,
    ensures
        steps.len() > 0 && (steps[0] matches ServiceCall::CopyIn {
            boundary,
            ptr,
            len,
            out: b,
            result,
        } && boundary == req.boundary && ptr == req.arg0 && len == 32 && b.len() == 32 && (result
            matches Err(e) ==> steps.len() == 1 && tells_error(out, e)) && (result is Ok && block
            == b && word_le(block, 8) <= usize::MAX && word_le(block, 24) <= usize::MAX ==> {
            let path_len = word_le(block, 8);
            let buf_len = word_le(block, 24);
            if buf_len > 65536 || path_len == 0 || path_len > 1024 {
                steps.len() == 1 && tells_error(out, SyscallError::InvalidArgument)
            } else {
                steps.len() > 1 && (steps[1] matches ServiceCall::CopyIn {
                    boundary,
                    ptr,
                    len,
                    out: p,
                    result,
                } && boundary == req.boundary && ptr == word_le(block, 0) && len == path_len
                    && p.len() == path_len && (result matches Err(e) ==> steps.len() == 2
                    && tells_error(out, e)) && (result is Ok && path == p ==> {
                    &&& call is FsRead ==> read_means(req, out, steps, block, path)
                    &&& call is FsList ==> list_means(req, out, steps, block, path)
                    &&& call is FsWrite ==> write_means(req, out, steps, block, path)
                }))
            }
        })),
{
    lemma_since(old(env).trace(), final(env).trace(), steps);
    if let ServiceCall::CopyIn { out: b, .. } = steps[0] {
        if block == b && b.len() == 32 {
            le64_is_little_endian(block, 0);
            le64_is_little_endian(block, 8);
            le64_is_little_endian(block, 16);
            le64_is_little_endian(block, 24);
        }
    }
}

/// What service 3 of a read is handed, and what the caller gets.
pub open spec fn read_means(
    req: &SyscallRequest,
    out: SyscallOutcome,
    steps: Seq<ServiceCall>,
    block: Seq<u8>,
    path: Seq<u8>,
) -> bool {
    steps.len() > 2 && (steps[2] matches ServiceCall::FsRead { path: p, result } && p == path
        && match result {
        Err(e) => steps.len() == 3 && tells_error(out, e),
        Ok(None) => steps.len() == 3 && tells_error(out, SyscallError::NotFound),
        Ok(Some(data)) => gives_caller(req, out, steps, block, data),
    })
}

/// What service 3 of a listing is handed, and what the caller gets.
pub open spec fn list_means(
    req: &SyscallRequest,
    out: SyscallOutcome,
    steps: Seq<ServiceCall>,
    block: Seq<u8>,
    path: Seq<u8>,
) -> bool {
    steps.len() > 2 && (steps[2] matches ServiceCall::FsList { path: p, result } && p == path
        && match result {
        Err(e) => steps.len() == 3 && tells_error(out, e),
        Ok(None) => steps.len() == 3 && tells_error(out, SyscallError::NotFound),
        Ok(Some(names)) => gives_caller(
            req,
            out,
            steps,
            block,
            joined(names),
        ),
    })
}

/// The front of `data` goes to the buffer that the block names, as much as fits, and the
/// caller is told how much.
pub open spec fn gives_caller(
    req: &SyscallRequest,
    out: SyscallOutcome,
    steps: Seq<ServiceCall>,
    block: Seq<u8>,
    data: Seq<u8>,
) -> bool {
    steps.len() == 4 && (steps[3] matches ServiceCall::CopyOut { boundary, ptr, bytes, result }
        && boundary == req.boundary && ptr == word_le(block, 16) && bytes.is_prefix_of(data)
        && bytes.len() <= word_le(block, 24) && (bytes.len() == data.len() || bytes.len()
        == word_le(block, 24)) && match result {
        Ok(_) => tells_number(out, bytes.len() as int),
        Err(e) => tells_error(out, e),
    })
}

/// All of the buffer that the block names is stored under the path.
pub open spec fn write_means(
    req: &SyscallRequest,
    out: SyscallOutcome,
    steps: Seq<ServiceCall>,
    block: Seq<u8>,
    path: Seq<u8>,
) -> bool {
    if word_le(block, 24) == 0 {
        steps.len() == 3 && (steps[2] matches ServiceCall::FsWrite { path: p, data, result } && p
            == path && data.len() == 0 && tells_end(out, result))
    } else {
        steps.len() > 2 && (steps[2] matches ServiceCall::CopyIn {
            boundary,
            ptr,
            len,
            out: bytes,
            result,
        } && boundary == req.boundary && ptr == word_le(block, 16) && len == word_le(block, 24)
            && bytes.len() == len && match result {
            Err(e) => steps.len() == 3 && tells_error(out, e),
            Ok(_) => steps.len() == 4 && (steps[3] matches ServiceCall::FsWrite {
                path: p,
                data,
                result: r,
            } && p == path && data == bytes && match r {
                Ok(_) => tells_number(out, word_le(block, 24)),
                Err(e) => tells_error(out, e),
            }),
        })
    }
}

/// Random bytes, as many as the second argument says and all of them filled in by the
/// kernel, go to the first argument.
pub proof fn random_means<E: SyscallEnv>(
    req: &SyscallRequest,
    env: &mut E,
    out: SyscallOutcome,
    steps: Seq<ServiceCall>,
)
    requires
        call_ensures(dispatch::<E>, (req, env), out),
        performed_since(old(env).trace(), final(env).trace(), steps),
        call_ensures(Syscall::number, (Syscall::GetRandom,), req.number),
        req.arg1 <= usize::MAX,
    ensures
        req.arg1 == 0 || req.arg1 > 65536 ==> steps.len() == 0 && tells_error(
            out,
            SyscallError::InvalidArgument,
        ),
        0 < req.arg1 <= 65536 ==> steps.len() > 0 && (steps[0] matches ServiceCall::FillRandom {
            out: drawn,
            result,
        } && drawn.len() == req.arg1 && match result {
            Err(e) => steps.len() == 1 && tells_error(out, e),
            Ok(_) => steps.len() == 2 && (steps[1] matches ServiceCall::CopyOut {
                boundary,
                ptr,
                bytes,
                result: r,
            } && boundary == req.boundary && ptr == req.arg0 && bytes == drawn && match r {
                Ok(_) => tells_number(out, req.arg1 as int),
                Err(e) => tells_error(out, e),
            }),
        }),
{
    lemma_since(old(env).trace(), final(env).trace(), steps);
}

/// Sending, on a channel or over a link: the bytes that the second and third argument name
/// are copied from the caller, and exactly those go to what the first argument names. A
/// channel takes up to 65536 bytes at once.
pub proof fn sending_means<E: SyscallEnv>(
    req: &SyscallRequest,
    env: &mut E,
    out: SyscallOutcome,
    steps: Seq<ServiceCall>,
    call: Syscall,
)
    requires
        call_ensures(dispatch::<E>, (req, env), out),
        performed_since(old(env).trace(), final(env).trace(), steps),
        call_ensures(Syscall::number, (call,), req.number),
        call is ChannelSend || call is LinkSend,
        req.arg2 <= usize::MAX,
    ensures
        (call is ChannelSend && req.arg2 > 65536) || req.arg2 > isize::MAX ==> steps.len() == 0
            && tells_error(out, SyscallError::InvalidArgument),
        (call is ChannelSend ==> req.arg2 <= 65536) && req.arg2 <= isize::MAX ==> steps.len() > 0
            && (steps[0] matches ServiceCall::CopyIn { boundary, ptr, len, out: bytes, result }
            && boundary == req.boundary && ptr == req.arg1 && len == req.arg2 && bytes.len() == len
            && match result {
            Err(e) => steps.len() == 1 && tells_error(out, e),
            Ok(_) => steps.len() == 2 && match steps[1] {
                ServiceCall::ChannelSend { boundary, handle, data, result: r } => call is ChannelSend
                    && boundary == req.boundary && handle == req.arg0 && data == bytes && tells_end(
                    out,
                    r,
                ),
                ServiceCall::LinkSend { boundary, handle, data, result: r } => call is LinkSend
                    && boundary == req.boundary && handle == req.arg0 && data == bytes && tells_end(
                    out,
                    r,
                ),
                _ => false,
            },
        }),
{
    lemma_since(old(env).trace(), final(env).trace(), steps);
}

/// Receiving. From a channel, the message that it gives goes to the caller's buffer, cut to
/// what fits. Over a link, what it gives goes there whole, or is refused where it does not
/// fit. The caller is told how many bytes went over.
pub proof fn receiving_means<E: SyscallEnv>(
    req: &SyscallRequest,
    env: &mut E,
    out: SyscallOutcome,
    steps: Seq<ServiceCall>,
    call: Syscall,
)
    requires
        call_ensures(dispatch::<E>, (req, env), out),
        performed_since(old(env).trace(), final(env).trace(), steps),
        call_ensures(Syscall::number, (call,), req.number),
        req.arg2 <= usize::MAX,
    ensures
        call is ChannelRecv && req.arg2 > 65536 ==> steps.len() == 0 && tells_error(
            out,
            SyscallError::InvalidArgument,
        ),
        call is ChannelRecv && req.arg2 <= 65536 ==> steps.len() > 0 && (steps[0] matches
            ServiceCall::ChannelRecv { boundary, handle, result } && boundary == req.boundary
            && handle == req.arg0 && match result {
            Err(e) => steps.len() == 1 && tells_error(out, e),
            Ok(msg) => steps.len() == 2 && (steps[1] matches ServiceCall::CopyOut {
                boundary,
                ptr,
                bytes,
                result: r,
            } && boundary == req.boundary && ptr == req.arg1 && bytes.is_prefix_of(msg)
                && bytes.len() <= req.arg2 && (bytes.len() == msg.len() || bytes.len() == req.arg2)
                && match r {
                Ok(_) => tells_number(out, bytes.len() as int),
                Err(e) => tells_error(out, e),
            }),
        }),
        call is LinkRecv ==> steps.len() > 0 && (steps[0] matches ServiceCall::LinkRecv {
            boundary,
            handle,
            result,
        } && boundary == req.boundary && handle == req.arg0 && match result {
            Err(e) => steps.len() == 1 && tells_error(out, e),
            Ok(msg) => if msg.len() > req.arg2 {
                steps.len() == 1 && tells_error(out, SyscallError::InvalidArgument)
            } else {
                steps.len() == 2 && (steps[1] matches ServiceCall::CopyOut {
                    boundary,
                    ptr,
                    bytes,
                    result: r,
                } && boundary == req.boundary && ptr == req.arg1 && bytes == msg && match r {
                    Ok(_) => tells_number(out, msg.len() as int),
                    Err(e) => tells_error(out, e),
                })
            },
        }),
{
    lemma_since(old(env).trace(), final(env).trace(), steps);
}

/// Opening a channel within the boundary, closing a link, and starting a lane: each asks
/// for its one service with the arguments in their order, and tells the caller its end. A
/// channel holds something, and messages of 1 to 65536 bytes.
pub proof fn opening_means<E: SyscallEnv>(
    req: &SyscallRequest,
    env: &mut E,
    out: SyscallOutcome,
    steps: Seq<ServiceCall>,
    call: Syscall,
)
    requires
        call_ensures(dispatch::<E>, (req, env), out),
        performed_since(old(env).trace(), final(env).trace(), steps),
        call_ensures(Syscall::number, (call,), req.number),
        req.arg0 <= usize::MAX,
        req.arg1 <= usize::MAX,
    ensures
        call is OpenChannel ==> if req.arg0 == 0 || req.arg1 == 0 || req.arg1 > 65536 {
            steps.len() == 0 && tells_error(out, SyscallError::InvalidArgument)
        } else {
            steps.len() == 1 && (steps[0] matches ServiceCall::OpenChannel {
                boundary,
                capacity,
                max_message_bytes,
                result,
            } && boundary == req.boundary && capacity == req.arg0 && max_message_bytes == req.arg1
                && tells_result(out, result))
        },
        call is Spawn ==> steps.len() == 1 && (steps[0] matches ServiceCall::Spawn {
            boundary,
            entry,
            arg,
            result,
        } && boundary == req.boundary && entry == req.arg0 && arg == req.arg1 && tells_result(
            out,
            result,
        )),
        call is LinkClose ==> steps.len() == 1 && (steps[0] matches ServiceCall::LinkClose {
            boundary,
            handle,
            result,
        } && boundary == req.boundary && handle == req.arg0 && tells_end(out, result)),
{
    lemma_since(old(env).trace(), final(env).trace(), steps);
}

/// The handshake between boundaries. A request proposes to the boundary that the first
/// argument names the terms that stand at the second, and is refused where that is the
/// caller itself or the terms are no terms. The caller answers, and asks about, requests by
/// their number; it accepts what was asked of itself, and learns the outcome of what it
/// asked.
pub proof fn handshake_means<E: SyscallEnv>(
    req: &SyscallRequest,
    env: &mut E,
    out: SyscallOutcome,
    steps: Seq<ServiceCall>,
    call: Syscall,
)
    requires
        call_ensures(dispatch::<E>, (req, env), out),
        performed_since(old(env).trace(), final(env).trace(), steps),
        call_ensures(Syscall::number, (call,), req.number),
        req.arg1 <= usize::MAX,
        req.arg2 <= usize::MAX,
    ensures
        call is RequestChannel ==> if req.arg2 < 48 {
            steps.len() == 0 && tells_error(out, SyscallError::InvalidArgument)
        } else {
            steps.len() > 0 && (steps[0] matches ServiceCall::CopyIn {
                boundary,
                ptr,
                len,
                out: raw,
                result,
            } && boundary == req.boundary && ptr == req.arg1 && len == 48 && raw.len() == 48
                && match result {
                Err(e) => steps.len() == 1 && tells_error(out, e),
                Ok(_) => if req.arg0 == req.boundary.0 || terms_of(raw) is None {
                    steps.len() == 1 && tells_error(out, SyscallError::InvalidArgument)
                } else {
                    steps.len() == 2 && (steps[1] matches ServiceCall::RequestChannel {
                        requester,
                        target,
                        terms,
                        result: r,
                    } && requester == req.boundary && target.0 == req.arg0 && terms == terms_of(
                        raw,
                    )->Some_0 && tells_result(out, r))
                },
            })
        },
        call is PollChannelRequest ==> if req.arg1 < 56 {
            steps.len() == 0 && tells_error(out, SyscallError::InvalidArgument)
        } else {
            steps.len() > 0 && (steps[0] matches ServiceCall::PollChannelRequest {
                target,
                out: wire,
                result,
            } && target == req.boundary && wire.len() == 56 && match result {
                Err(e) => steps.len() == 1 && tells_error(out, e),
                Ok(id) => steps.len() == 2 && (steps[1] matches ServiceCall::CopyOut {
                    boundary,
                    ptr,
                    bytes,
                    result: r,
                } && boundary == req.boundary && ptr == req.arg0 && bytes == wire && match r {
                    Ok(_) => tells_number(out, id as int),
                    Err(e) => tells_error(out, e),
                }),
            })
        },
        call is AcceptChannel ==> steps.len() == 1 && (steps[0] matches ServiceCall::AcceptChannel {
            target,
            request_id,
            result,
        } && target == req.boundary && request_id == req.arg0 && tells_result(out, result)),
        call is RejectChannel ==> steps.len() == 1 && (steps[0] matches ServiceCall::RejectChannel {
            target,
            request_id,
            result,
        } && target == req.boundary && request_id == req.arg0 && tells_end(out, result)),
        call is PollChannelOutcome ==> steps.len() == 1 && (steps[0] matches
            ServiceCall::PollChannelOutcome { requester, request_id, result } && requester
            == req.boundary && request_id == req.arg0 && tells_result(out, result)),
{
    lemma_since(old(env).trace(), final(env).trace(), steps);
}

/// Calls about a gate. The first argument is its number, and is refused above 65535. Else the
/// one service asked for is the call's own, for that gate and on behalf of the caller; the
/// warden is told to deny that gate exactly where the second argument is zero, and to allow
/// it else.
pub proof fn gate_calls_mean<E: SyscallEnv>(
    req: &SyscallRequest,
    env: &mut E,
    out: SyscallOutcome,
    steps: Seq<ServiceCall>,
    call: Syscall,
)
    requires
        call_ensures(dispatch::<E>, (req, env), out),
        performed_since(old(env).trace(), final(env).trace(), steps),
        call_ensures(Syscall::number, (call,), req.number),
        call is GateBind || call is GateConnect || call is GateAccept || call is WardenSet
            || call is GateProbe,
    ensures
        req.arg0 > 65535 ==> steps.len() == 0 && tells_error(out, SyscallError::InvalidArgument),
        req.arg0 <= 65535 ==> steps.len() == 1 && match steps[0] {
            ServiceCall::GateBind { owner, gate, result } => call is GateBind && owner
                == req.boundary && gate == req.arg0 && tells_result(out, result),
            ServiceCall::GateConnect { from, gate, result } => call is GateConnect && from
                == req.boundary && gate == req.arg0 && tells_result(out, result),
            ServiceCall::GateAccept { owner, gate, result } => call is GateAccept && owner
                == req.boundary && gate == req.arg0 && tells_result(out, result),
            ServiceCall::GateProbe { boundary, gate, result } => call is GateProbe && boundary
                == req.boundary && gate == req.arg0 && tells_result(out, result),
            ServiceCall::WardenSet { boundary, gate, allow, result } => call is WardenSet && boundary
                == req.boundary && gate == req.arg0 && (!allow <==> req.arg1 == 0) && tells_end(
                out,
                result,
            ),
            _ => false,
        },
{
    lemma_since(old(env).trace(), final(env).trace(), steps);
}

/// A registry of gates answers the warden service as it is asked: `after` is `before` with
/// that gate allowed or denied.
pub open spec fn warden_obeys(before: GateRegistry, c: ServiceCall, after: GateRegistry) -> bool {
    c matches ServiceCall::WardenSet { gate, allow, .. } && if allow {
        after@ == (Gates { denied: before@.denied.remove(gate as u64), ..before@ })
    } else {
        after@ == (Gates { denied: before@.denied.insert(gate as u64), ..before@ })
    }
}

/// Closing and opening a gate by system call. Where the warden service is performed by a
/// registry of gates, a call with a zero second argument leaves that gate blocked, and one
/// with any other leaves it open or closed, as it is bound or not; every other gate stays
/// as it was.
pub proof fn warden_call_closes_and_opens_the_gate<E: SyscallEnv>(
    req: &SyscallRequest,
    env: &mut E,
    out: SyscallOutcome,
    service: ServiceCall,
    before: GateRegistry,
    after: GateRegistry,
    gate: Gate,
    state: GateState,
    other: Gate,
    other_was: GateState,
    other_is: GateState,
)
    requires
        call_ensures(dispatch::<E>, (req, env), out),
        final(env).trace() == old(env).trace().push(service),
        call_ensures(Syscall::number, (Syscall::WardenSet,), req.number),
        req.arg0 == gate,
        warden_obeys(before, service, after),
        call_ensures(GateRegistry::probe, (&after, gate), state),
        other != gate,
        call_ensures(GateRegistry::probe, (&before, other), other_was),
        call_ensures(GateRegistry::probe, (&after, other), other_is),
    ensures
        req.arg1 == 0 <==> state is Blocked,
        req.arg1 != 0 ==> (state is Open <==> before@.bound.dom().contains(gate as u64)),
        other_is == other_was,
{
    let steps = seq![service];
    assert(old(env).trace().push(service) =~= old(env).trace() + steps);
    gate_calls_mean::<E>(req, env, out, steps, Syscall::WardenSet);
}

/// Joined names stand one after the other, with one line feed between each two and none
/// at the ends.
pub proof fn names_are_joined_by_line_feeds(a: Seq<Seq<u8>>, b: Seq<Seq<u8>>, name: Seq<u8>)
    ensures
        joined(Seq::empty()).len() == 0,
        joined(seq![name]) == name,
        a.len() > 0 && b.len() > 0 ==> joined(a + b) == joined(a) + seq![10u8] + joined(b),
    decreases b.len(),
{
    if a.len() > 0 && b.len() > 0 {
        let all = a + b;
        if b.len() == 1 {
            assert(all.drop_last() =~= a);
            assert(all.last() == b[0]);
        } else {
            assert(all.drop_last() =~= a + b.drop_last());
            assert(all.last() == b.last());
            names_are_joined_by_line_feeds(a, b.drop_last(), name);
            assert(joined(all) =~= joined(a) + seq![10u8] + joined(b));
        }
    }
}

} // verus!

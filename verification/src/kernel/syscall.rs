//! System-call dispatch.
//!
//! The trap entry decodes the hardware registers into a [`SyscallRequest`] and
//! calls [`dispatch`]. A user pointer is an address in the calling boundary's
//! address space: the dispatcher never dereferences one, but asks its
//! [`SyscallEnv`] to copy bytes, so that every access is checked against that
//! boundary's mappings.
use vstd::prelude::*;
use vstd::slice::{slice_subrange, slice_to_vec};
use crate::abi::calls::{
    call_of, rw_args_of, FsRwArgs, Syscall, SyscallError, FS_RW_ARGS_LEN,
};
use crate::abi::ids::BoundaryId;
use crate::abi::terms::{ChannelTerms, CHANNEL_REQUEST_WIRE_LEN, CHANNEL_TERMS_WIRE_LEN};
use crate::kernel::syscall_env::{
    name_bytes, ServiceCall, SyscallEnv, SyscallOutcome, SyscallRequest,
};
use crate::kernel::syscall_model::{
    as_size, after_args_and_path, channel_recv_served, channel_send_served, clamped, copied, copy_result, extends, failed, fs_list_served, fs_read_served, fs_write_served, get_random_served, is_copy_in, is_copy_out, joined, link_recv_served, link_send_served, log_served, number_outcome, poll_channel_request_served, request_channel_served, served, since, unit_outcome,
};

verus! {

/// Maximum bytes a single `log` may emit, to bound kernel work per call.
pub const MAX_LOG_LEN: usize = 4096;

/// Maximum path length the filesystem calls accept, to bound kernel work.
pub const MAX_PATH_LEN: usize = 1024;

/// Maximum bytes a single `fs_read`/`fs_write` may transfer, to bound kernel
/// buffering per call.
pub const MAX_FS_IO_LEN: usize = 65536;

/// The low 63 bits of `x`.
fn clamp(x: u64) -> (r: i64)
    ensures
        r == clamped(x),
{
    (x % 0x8000_0000_0000_0000) as i64
}

/// A word as a length: what of it fits in a `usize`.
fn size_word(word: u64) -> (n: usize)
    ensures
        n == as_size(word),
{
    let top: u64 = usize::MAX as u64;
    if word <= top {
        word as usize
    } else {
        (word % (top + 1)) as usize
    }
}

/// The outcome that reports `e`.
fn fail(e: SyscallError) -> (out: SyscallOutcome)
    ensures
        out == failed(e),
{
    SyscallOutcome::Return(e.as_return())
}

/// The outcome of a service that gives nothing back.
fn finish(r: Result<(), SyscallError>) -> (out: SyscallOutcome)
    ensures
        out == unit_outcome(r),
{
    match r {
        Ok(()) => SyscallOutcome::Return(0),
        Err(e) => fail(e),
    }
}

/// The outcome of a service that gives a number back.
fn finish_number(r: Result<u64, SyscallError>) -> (out: SyscallOutcome)
    ensures
        out == number_outcome(r),
{
    match r {
        Ok(x) => SyscallOutcome::Return(clamp(x)),
        Err(e) => fail(e),
    }
}

/// Copy `len` bytes of user memory into a kernel buffer.
fn copy_in<E: SyscallEnv>(boundary: BoundaryId, ptr: u64, len: usize, env: &mut E) -> (r: Result<
    Vec<u8>,
    SyscallError,
>)
    ensures
        final(env).trace() == old(env).trace().push(final(env).trace().last()),
        is_copy_in(final(env).trace().last(), boundary, ptr, len as int),
        match r {
            Ok(b) => copy_result(final(env).trace().last()) is Ok && b@ == copied(
                final(env).trace().last(),
            ),
            Err(e) => copy_result(final(env).trace().last()) == Err::<(), SyscallError>(e),
        },
{
    let mut buf: Vec<u8> = vec![0u8;len];
    match env.copy_from_user(boundary, ptr, len, buf.as_mut_slice()) {
        Ok(()) => Ok(buf),
        Err(e) => Err(e),
    }
}


/// `log`.
fn log<E: SyscallEnv>(req: &SyscallRequest, env: &mut E) -> (out: SyscallOutcome)
    ensures
        extends(old(env).trace(), final(env).trace()),
        log_served(*req, since(old(env).trace(), final(env).trace()), out),
{
    let len: usize = size_word(req.arg1);
    if len > MAX_LOG_LEN {
        return fail(SyscallError::InvalidArgument);
    }
    match copy_in(req.boundary, req.arg0, len, env) {
        Err(e) => fail(e),
        Ok(text) => {
            env.console_write(text.as_slice());
            SyscallOutcome::Return(0)
        },
    }
}

/// Copy a bounded path from user memory.
fn read_path<E: SyscallEnv>(boundary: BoundaryId, ptr: u64, len: usize, env: &mut E) -> (r: Result<
    Vec<u8>,
    SyscallError,
>)
    ensures
        if len == 0 || len > 1024 {
            &&& final(env).trace() == old(env).trace()
            &&& r == Err::<Vec<u8>, SyscallError>(SyscallError::InvalidArgument)
        } else {
            &&& final(env).trace() == old(env).trace().push(final(env).trace().last())
            &&& is_copy_in(final(env).trace().last(), boundary, ptr, len as int)
            &&& match r {
                Ok(b) => copy_result(final(env).trace().last()) is Ok && b@ == copied(
                    final(env).trace().last(),
                ),
                Err(e) => copy_result(final(env).trace().last()) == Err::<(), SyscallError>(e),
            }
        },
{
    if len == 0 || len > MAX_PATH_LEN {
        return Err(SyscallError::InvalidArgument);
    }
    copy_in(boundary, ptr, len, env)
}

/// Decode the argument block at `arg0`, and read the path it names. The buffer it
/// names is at most [`MAX_FS_IO_LEN`] long.
fn read_args_and_path<E: SyscallEnv>(req: &SyscallRequest, env: &mut E) -> (r: Result<
    (FsRwArgs, Vec<u8>),
    SyscallError,
>)
    ensures
        extends(old(env).trace(), final(env).trace()),
        match r {
            Ok((args, path)) => {
                let steps = since(old(env).trace(), final(env).trace());
                &&& steps.len() == 2
                &&& is_copy_in(steps[0], req.boundary, req.arg0, 32)
                &&& copy_result(steps[0]) is Ok
                &&& args == rw_args_of(copied(steps[0]))
                &&& as_size(args.buf_len) <= 65536
                &&& 0 < as_size(args.path_len) <= 1024
                &&& is_copy_in(
                    steps[1],
                    req.boundary,
                    args.path_ptr,
                    as_size(args.path_len) as int,
                )
                &&& copy_result(steps[1]) is Ok
                &&& path@ == copied(steps[1])
            },
            Err(e) => forall|next: spec_fn(FsRwArgs, Seq<u8>) -> bool|
                #[trigger] after_args_and_path(
                    *req,
                    since(old(env).trace(), final(env).trace()),
                    failed(e),
                    next,
                ),
        },
{
    let raw: Vec<u8> = match copy_in(req.boundary, req.arg0, FS_RW_ARGS_LEN, env) {
        Ok(raw) => raw,
        Err(e) => return Err(e),
    };
    let ghost first = env.trace();
    let args: FsRwArgs = FsRwArgs::from_bytes(raw.as_slice());
    if size_word(args.buf_len) > MAX_FS_IO_LEN {
        return Err(SyscallError::InvalidArgument);
    }
    match read_path(req.boundary, args.path_ptr, size_word(args.path_len), env) {
        Err(e) => Err(e),
        Ok(path) => Ok((args, path)),
    }
}

/// Copy the first `n` bytes of `bytes` to the user.
fn copy_out<E: SyscallEnv>(
    boundary: BoundaryId,
    ptr: u64,
    bytes: &Vec<u8>,
    n: usize,
    value: i64,
    env: &mut E,
) -> (out: SyscallOutcome)
    requires
        n <= bytes@.len(),
    ensures
        final(env).trace() == old(env).trace().push(final(env).trace().last()),
        is_copy_out(final(env).trace().last(), boundary, ptr, bytes@.subrange(0, n as int)),
        out == match copy_result(final(env).trace().last()) {
            Ok(_) => SyscallOutcome::Return(value),
            Err(e) => failed(e),
        },
{
    match env.copy_to_user(boundary, ptr, slice_subrange(bytes.as_slice(), 0, n)) {
        Ok(()) => SyscallOutcome::Return(value),
        Err(e) => fail(e),
    }
}

/// `fs_read`: read the file named by the path in the argument block into the user
/// buffer in the argument block.
fn fs_read<E: SyscallEnv>(req: &SyscallRequest, env: &mut E) -> (out: SyscallOutcome)
    ensures
        extends(old(env).trace(), final(env).trace()),
        fs_read_served(*req, since(old(env).trace(), final(env).trace()), out),
{
    let (args, path) = match read_args_and_path(req, env) {
        Ok(p) => p,
        Err(e) => return fail(e),
    };
    let data: Vec<u8> = match env.fs_read(path.as_slice()) {
        Ok(Some(d)) => d,
        Ok(None) => return fail(SyscallError::NotFound),
        Err(e) => return fail(e),
    };
    let cap: usize = size_word(args.buf_len);
    let n: usize = if data.len() < cap {
        data.len()
    } else {
        cap
    };
    copy_out(req.boundary, args.buf_ptr, &data, n, n as i64, env)
}

/// Names joined by newlines.
fn join_names(names: &Vec<String>) -> (out: Vec<u8>)
    ensures
        out@ == joined(name_bytes(names@)),
{
    let ghost all = name_bytes(names@);
    let mut out: Vec<u8> = Vec::new();
    let mut i: usize = 0;
    while i < names.len()
        invariant
            i <= names@.len(),
            all == name_bytes(names@),
            out@ == joined(all.subrange(0, i as int)),
        decreases names@.len() - i,
    {
        let ghost before = out@;
        if i > 0 {
            out.push(10);
        }
        let mut bytes: Vec<u8> = slice_to_vec(names[i].as_str().as_bytes());
        out.append(&mut bytes);
        proof {
            let next = all.subrange(0, i + 1);
            assert(next.drop_last() =~= all.subrange(0, i as int));
            assert(next.last() == all[i as int]);
            assert(out@ =~= joined(next));
        }
        i = i + 1;
    }
    assert(all.subrange(0, all.len() as int) =~= all);
    out
}

/// `fs_list`: list the directory named by the path in the argument block, writing
/// the names joined by newlines into the user buffer in the argument block.
fn fs_list<E: SyscallEnv>(req: &SyscallRequest, env: &mut E) -> (out: SyscallOutcome)
    ensures
        extends(old(env).trace(), final(env).trace()),
        fs_list_served(*req, since(old(env).trace(), final(env).trace()), out),
{
    let (args, path) = match read_args_and_path(req, env) {
        Ok(p) => p,
        Err(e) => return fail(e),
    };
    let names: Vec<String> = match env.fs_list(path.as_slice()) {
        Ok(Some(names)) => names,
        Ok(None) => return fail(SyscallError::NotFound),
        Err(e) => return fail(e),
    };
    let data: Vec<u8> = join_names(&names);
    let cap: usize = size_word(args.buf_len);
    let n: usize = if data.len() < cap {
        data.len()
    } else {
        cap
    };
    copy_out(req.boundary, args.buf_ptr, &data, n, n as i64, env)
}

/// `fs_write`: create or overwrite the file named by the path in the argument
/// block with the data buffer in the argument block.
fn fs_write<E: SyscallEnv>(req: &SyscallRequest, env: &mut E) -> (out: SyscallOutcome)
    ensures
        extends(old(env).trace(), final(env).trace()),
        fs_write_served(*req, since(old(env).trace(), final(env).trace()), out),
{
    let (args, path) = match read_args_and_path(req, env) {
        Ok(p) => p,
        Err(e) => return fail(e),
    };
    let len: usize = size_word(args.buf_len);
    let data: Vec<u8> = if len > 0 {
        match copy_in(req.boundary, args.buf_ptr, len, env) {
            Ok(data) => data,
            Err(e) => return fail(e),
        }
    } else {
        Vec::new()
    };
    match env.fs_write(path.as_slice(), data.as_slice()) {
        Ok(()) => SyscallOutcome::Return(len as i64),
        Err(e) => fail(e),
    }
}

/// `get_random`: fill the user buffer at `arg0` (len `arg1`) with random bytes.
fn get_random<E: SyscallEnv>(req: &SyscallRequest, env: &mut E) -> (out: SyscallOutcome)
    ensures
        extends(old(env).trace(), final(env).trace()),
        get_random_served(*req, since(old(env).trace(), final(env).trace()), out),
{
    let len: usize = size_word(req.arg1);
    if len == 0 || len > MAX_FS_IO_LEN {
        return fail(SyscallError::InvalidArgument);
    }
    let mut buf: Vec<u8> = vec![0u8;len];
    match env.fill_random(buf.as_mut_slice()) {
        Err(e) => return fail(e),
        Ok(()) => {},
    }
    assert(buf@.subrange(0, len as int) =~= buf@);
    copy_out(req.boundary, req.arg0, &buf, len, len as i64, env)
}

/// `channel_send`: copy the user buffer (`arg1` ptr, `arg2` len) and hand it to
/// the channel `arg0`.
fn channel_send<E: SyscallEnv>(req: &SyscallRequest, env: &mut E) -> (out: SyscallOutcome)
    ensures
        extends(old(env).trace(), final(env).trace()),
        channel_send_served(*req, since(old(env).trace(), final(env).trace()), out),
{
    let len: usize = size_word(req.arg2);
    if len > MAX_FS_IO_LEN {
        return fail(SyscallError::InvalidArgument);
    }
    match copy_in(req.boundary, req.arg1, len, env) {
        Err(e) => fail(e),
        Ok(buf) => finish(env.channel_send(req.boundary, req.arg0, buf.as_slice())),
    }
}

/// `channel_recv`: receive one message from channel `arg0` and copy it to the user
/// buffer (`arg1` ptr, `arg2` len), cut to the buffer.
fn channel_recv<E: SyscallEnv>(req: &SyscallRequest, env: &mut E) -> (out: SyscallOutcome)
    ensures
        extends(old(env).trace(), final(env).trace()),
        channel_recv_served(*req, since(old(env).trace(), final(env).trace()), out),
{
    let cap: usize = size_word(req.arg2);
    if cap > MAX_FS_IO_LEN {
        return fail(SyscallError::InvalidArgument);
    }
    match env.channel_recv(req.boundary, req.arg0) {
        Err(e) => fail(e),
        Ok(msg) => {
            let n: usize = if msg.len() < cap {
                msg.len()
            } else {
                cap
            };
            copy_out(req.boundary, req.arg1, &msg, n, n as i64, env)
        },
    }
}

/// `link_send`: copy the user buffer (`arg1` ptr, `arg2` len) and hand it to the
/// link `arg0`. More bytes than an allocation can hold are refused.
fn link_send<E: SyscallEnv>(req: &SyscallRequest, env: &mut E) -> (out: SyscallOutcome)
    ensures
        extends(old(env).trace(), final(env).trace()),
        link_send_served(*req, since(old(env).trace(), final(env).trace()), out),
{
    let len: usize = size_word(req.arg2);
    if len > isize::MAX as usize {
        return fail(SyscallError::InvalidArgument);
    }
    match copy_in(req.boundary, req.arg1, len, env) {
        Err(e) => fail(e),
        Ok(buf) => finish(env.link_send(req.boundary, req.arg0, buf.as_slice())),
    }
}

/// `link_recv`: receive from the link `arg0` and copy to the user buffer (`arg1`
/// ptr, `arg2` len).
fn link_recv<E: SyscallEnv>(req: &SyscallRequest, env: &mut E) -> (out: SyscallOutcome)
    ensures
        extends(old(env).trace(), final(env).trace()),
        link_recv_served(*req, since(old(env).trace(), final(env).trace()), out),
{
    match env.link_recv(req.boundary, req.arg0) {
        Err(e) => fail(e),
        Ok(bytes) => {
            let len: usize = bytes.len();
            if len > size_word(req.arg2) {
                return fail(SyscallError::InvalidArgument);
            }
            assert(bytes@.subrange(0, len as int) =~= bytes@);
            copy_out(req.boundary, req.arg1, &bytes, len, clamp(len as u64), env)
        },
    }
}

/// `request_channel`: propose the terms at `arg1` (of `arg2` bytes) to boundary
/// `arg0`.
fn request_channel<E: SyscallEnv>(req: &SyscallRequest, env: &mut E) -> (out: SyscallOutcome)
    ensures
        extends(old(env).trace(), final(env).trace()),
        request_channel_served(*req, since(old(env).trace(), final(env).trace()), out),
{
    if size_word(req.arg2) < CHANNEL_TERMS_WIRE_LEN {
        return fail(SyscallError::InvalidArgument);
    }
    let raw: Vec<u8> = match copy_in(req.boundary, req.arg1, CHANNEL_TERMS_WIRE_LEN, env) {
        Ok(raw) => raw,
        Err(e) => return fail(e),
    };
    match ChannelTerms::from_bytes(raw.as_slice()) {
        None => fail(SyscallError::InvalidArgument),
        Some(terms) => {
            // A channel to oneself is what `open_channel` is for.
            if req.arg0 == req.boundary.0 {
                return fail(SyscallError::InvalidArgument);
            }
            finish_number(env.request_channel(req.boundary, BoundaryId(req.arg0), &terms))
        },
    }
}

/// `poll_channel_request`: write the oldest request to the caller to its buffer
/// (`arg0` ptr, `arg1` len).
fn poll_channel_request<E: SyscallEnv>(req: &SyscallRequest, env: &mut E) -> (out: SyscallOutcome)
    ensures
        extends(old(env).trace(), final(env).trace()),
        poll_channel_request_served(*req, since(old(env).trace(), final(env).trace()), out),
{
    if size_word(req.arg1) < CHANNEL_REQUEST_WIRE_LEN {
        return fail(SyscallError::InvalidArgument);
    }
    let mut buf: Vec<u8> = vec![0u8;CHANNEL_REQUEST_WIRE_LEN];
    match env.poll_channel_request(req.boundary, buf.as_mut_slice()) {
        Err(e) => fail(e),
        Ok(id) => {
            assert(buf@.subrange(0, 56) =~= buf@);
            copy_out(req.boundary, req.arg0, &buf, CHANNEL_REQUEST_WIRE_LEN, clamp(id), env)
        },
    }
}

/// Handle one decoded system call. The services it asks of `env`, in order, and
/// the outcome are those that [`served`] describes. Every request is admitted:
/// invalid arguments become error returns.
pub fn dispatch<E: SyscallEnv>(req: &SyscallRequest, env: &mut E) -> (out: SyscallOutcome)
    ensures
        extends(old(env).trace(), final(env).trace()),
        served(*req, since(old(env).trace(), final(env).trace()), out),
{
    let call: Syscall = match Syscall::from_number(req.number) {
        Some(call) => call,
        None => return fail(SyscallError::NoSuchCall),
    };
    match call {
        Syscall::Log => log(req, env),
        Syscall::Exit => SyscallOutcome::Exit(req.arg0),
        Syscall::Yield => SyscallOutcome::Yield,
        Syscall::Now => SyscallOutcome::Return(clamp(env.now_nanos())),
        Syscall::FsRead => fs_read(req, env),
        Syscall::FsWrite => fs_write(req, env),
        Syscall::FsMkdir => match read_path(req.boundary, req.arg0, size_word(req.arg1), env) {
            Err(e) => fail(e),
            Ok(path) => finish(env.fs_mkdir(path.as_slice())),
        },
        Syscall::FsExists => match read_path(req.boundary, req.arg0, size_word(req.arg1), env) {
            Err(e) => fail(e),
            Ok(path) => match env.fs_exists(path.as_slice()) {
                Ok(true) => SyscallOutcome::Return(1),
                Ok(false) => SyscallOutcome::Return(0),
                Err(e) => fail(e),
            },
        },
        Syscall::ReadKey => SyscallOutcome::Return(env.read_key(req.arg0 != 0)),
        Syscall::GetRandom => get_random(req, env),
        Syscall::FsList => fs_list(req, env),
        Syscall::FsDelete => match read_path(req.boundary, req.arg0, size_word(req.arg1), env) {
            Err(e) => fail(e),
            Ok(path) => finish(env.fs_delete(path.as_slice())),
        },
        // The duration is carried in `arg0` (low) and `arg1` (high).
        Syscall::Sleep => finish(env.sleep_nanos(req.arg0 | (req.arg1 << 32))),
        Syscall::OpenChannel => {
            let capacity: usize = size_word(req.arg0);
            let max_message_bytes: usize = size_word(req.arg1);
            if capacity == 0 || max_message_bytes == 0 || max_message_bytes > MAX_FS_IO_LEN {
                return fail(SyscallError::InvalidArgument);
            }
            finish_number(env.open_channel(req.boundary, capacity, max_message_bytes))
        },
        Syscall::ChannelSend => channel_send(req, env),
        Syscall::ChannelRecv => channel_recv(req, env),
        Syscall::Spawn => finish_number(env.spawn(req.boundary, req.arg0, req.arg1)),
        Syscall::RequestChannel => request_channel(req, env),
        Syscall::PollChannelRequest => poll_channel_request(req, env),
        Syscall::AcceptChannel => finish_number(env.accept_channel(req.boundary, req.arg0)),
        Syscall::RejectChannel => finish(env.reject_channel(req.boundary, req.arg0)),
        Syscall::PollChannelOutcome => finish_number(
            env.poll_channel_outcome(req.boundary, req.arg0),
        ),
        Syscall::GateBind => {
            if req.arg0 > 65535 {
                return fail(SyscallError::InvalidArgument);
            }
            finish_number(env.gate_bind(req.boundary, req.arg0 as u16))
        },
        Syscall::GateConnect => {
            if req.arg0 > 65535 {
                return fail(SyscallError::InvalidArgument);
            }
            finish_number(env.gate_connect(req.boundary, req.arg0 as u16))
        },
        Syscall::GateAccept => {
            if req.arg0 > 65535 {
                return fail(SyscallError::InvalidArgument);
            }
            finish_number(env.gate_accept(req.boundary, req.arg0 as u16))
        },
        Syscall::LinkSend => link_send(req, env),
        Syscall::LinkRecv => link_recv(req, env),
        Syscall::LinkClose => finish(env.link_close(req.boundary, req.arg0)),
        Syscall::WardenSet => {
            if req.arg0 > 65535 {
                return fail(SyscallError::InvalidArgument);
            }
            finish(env.warden_set(req.boundary, req.arg0 as u16, req.arg1 != 0))
        },
        Syscall::GateProbe => {
            if req.arg0 > 65535 {
                return fail(SyscallError::InvalidArgument);
            }
            finish_number(env.gate_probe(req.boundary, req.arg0 as u16))
        },
    }
}

/// A gate number above 65535 is refused before any service is asked for.
pub proof fn gate_out_of_range_reaches_nothing(
    req: SyscallRequest,
    steps: Seq<ServiceCall>,
    out: SyscallOutcome,
)
    requires
        served(req, steps, out),
        req.arg0 > 65535,
        call_of(req.number) == Some(Syscall::GateBind) || call_of(req.number) == Some(
            Syscall::GateConnect,
        ) || call_of(req.number) == Some(Syscall::GateAccept) || call_of(req.number) == Some(
            Syscall::WardenSet,
        ) || call_of(req.number) == Some(Syscall::GateProbe),
    ensures
        steps.len() == 0,
        out == failed(SyscallError::InvalidArgument),
{
}

/// A boundary cannot ask itself for a channel: the request never reaches the
/// environment.
pub proof fn channel_to_oneself_is_refused(
    req: SyscallRequest,
    steps: Seq<ServiceCall>,
    out: SyscallOutcome,
)
    requires
        served(req, steps, out),
        call_of(req.number) == Some(Syscall::RequestChannel),
        req.arg0 == req.boundary.0,
    ensures
        forall|i: int| 0 <= i < steps.len() ==> !(#[trigger] steps[i] is RequestChannel),
        out matches SyscallOutcome::Return(v) && v < 0,
{
}

/// The boundary on whose behalf a service is performed, where it has one.
pub open spec fn acting_boundary(c: ServiceCall) -> Option<BoundaryId> {
    match c {
        ServiceCall::CopyIn { boundary, .. } => Some(boundary),
        ServiceCall::CopyOut { boundary, .. } => Some(boundary),
        ServiceCall::OpenChannel { boundary, .. } => Some(boundary),
        ServiceCall::ChannelSend { boundary, .. } => Some(boundary),
        ServiceCall::ChannelRecv { boundary, .. } => Some(boundary),
        ServiceCall::Spawn { boundary, .. } => Some(boundary),
        ServiceCall::RequestChannel { requester, .. } => Some(requester),
        ServiceCall::PollChannelRequest { target, .. } => Some(target),
        ServiceCall::AcceptChannel { target, .. } => Some(target),
        ServiceCall::RejectChannel { target, .. } => Some(target),
        ServiceCall::PollChannelOutcome { requester, .. } => Some(requester),
        ServiceCall::GateBind { owner, .. } => Some(owner),
        ServiceCall::GateConnect { from, .. } => Some(from),
        ServiceCall::GateAccept { owner, .. } => Some(owner),
        ServiceCall::LinkSend { boundary, .. } => Some(boundary),
        ServiceCall::LinkRecv { boundary, .. } => Some(boundary),
        ServiceCall::LinkClose { boundary, .. } => Some(boundary),
        ServiceCall::WardenSet { boundary, .. } => Some(boundary),
        ServiceCall::GateProbe { boundary, .. } => Some(boundary),
        _ => None,
    }
}

/// Whatever a call asks for, it asks for on behalf of the boundary that issued
/// it: no call touches the memory, the channels or the links of another one.
pub proof fn services_act_for_the_caller(
    req: SyscallRequest,
    steps: Seq<ServiceCall>,
    out: SyscallOutcome,
)
    requires
        served(req, steps, out),
    ensures
        forall|i: int|
            0 <= i < steps.len() ==> (acting_boundary(#[trigger] steps[i]) matches Some(b) ==> b
                == req.boundary),
{
}

/// The bytes that a call copies into the kernel at once are bounded, whatever its
/// arguments, except for what is sent over a link, which one allocation must hold.
pub proof fn kernel_buffering_is_bounded(
    req: SyscallRequest,
    steps: Seq<ServiceCall>,
    out: SyscallOutcome,
)
    requires
        served(req, steps, out),
    ensures
        forall|i: int|
            0 <= i < steps.len() ==> (#[trigger] steps[i] matches ServiceCall::CopyIn { len, .. }
                ==> len <= if call_of(req.number) == Some(Syscall::LinkSend) {
                isize::MAX as int
            } else {
                65536
            }),
{
}

} // verus!

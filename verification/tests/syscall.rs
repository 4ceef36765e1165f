use cibos::abi::calls::{FsRwArgs, Syscall, SyscallError, FS_RW_ARGS_LEN};
use cibos::abi::ids::BoundaryId;
use cibos::abi::terms::{ChannelDirection, ChannelRequestWire, ChannelTerms};
use cibos::kernel::syscall::{dispatch, MAX_FS_IO_LEN, MAX_LOG_LEN, MAX_PATH_LEN};
use cibos::kernel::syscall_env::{CoreOnly, SyscallEnv, SyscallOutcome, SyscallRequest, Trace};
use std::collections::{BTreeMap, BTreeSet, VecDeque};

const KEY_K: i64 = 0x6b;

struct MockEnv {
    // A single mapped region [base, base+data.len()) in the test boundary.
    base: u64,
    data: Vec<u8>,
    written: Vec<u8>,
    clock: u64,
    // A tiny in-memory filesystem: path -> contents; dirs tracked as a set.
    files: BTreeMap<Vec<u8>, Vec<u8>>,
    dirs: BTreeSet<Vec<u8>>,
    // A tiny in-memory channel registry exercising the canonical local-channel
    // contract: handle -> (capacity, FIFO of buffered messages). `WouldBlock`
    // models Catch-and-Release back-pressure (full on send, empty on recv).
    channels: BTreeMap<u64, (usize, VecDeque<Vec<u8>>)>,
    next_handle: u64,
    // Each spawn records (entry, arg); returns a fresh lane id.
    spawned: Vec<(u64, u64)>,
    // Which boundary asked which for what.
    requests: Vec<(BoundaryId, BoundaryId, ChannelTerms)>,
    // Which boundary bound which gate.
    gates: Vec<(BoundaryId, u16)>,
    slept: u64,
}

impl MockEnv {
    fn range(&self, ptr: u64, len: usize) -> Result<(usize, usize), SyscallError> {
        let start = ptr.checked_sub(self.base).ok_or(SyscallError::BadAddress)? as usize;
        let end = start.checked_add(len).ok_or(SyscallError::InvalidArgument)?;
        if end > self.data.len() {
            return Err(SyscallError::BadAddress);
        }
        Ok((start, end))
    }
}

impl SyscallEnv for MockEnv {
    fn trace(&self) -> Trace {
        unreachable!()
    }
    fn copy_from_user(
        &mut self,
        _boundary: BoundaryId,
        ptr: u64,
        len: usize,
        out: &mut [u8],
    ) -> Result<(), SyscallError> {
        let (start, end) = self.range(ptr, len)?;
        out[..len].copy_from_slice(&self.data[start..end]);
        Ok(())
    }
    fn console_write(&mut self, bytes: &[u8]) {
        self.written.extend_from_slice(bytes);
    }
    fn now_nanos(&mut self) -> u64 {
        self.clock
    }
    fn copy_to_user(
        &mut self,
        _boundary: BoundaryId,
        ptr: u64,
        bytes: &[u8],
    ) -> Result<(), SyscallError> {
        let (start, end) = self.range(ptr, bytes.len())?;
        self.data[start..end].copy_from_slice(bytes);
        Ok(())
    }
    fn fs_read(&mut self, path: &[u8]) -> Result<Option<Vec<u8>>, SyscallError> {
        Ok(self.files.get(path).cloned())
    }
    fn fs_write(&mut self, path: &[u8], data: &[u8]) -> Result<(), SyscallError> {
        self.files.insert(path.to_vec(), data.to_vec());
        Ok(())
    }
    fn fs_mkdir(&mut self, path: &[u8]) -> Result<(), SyscallError> {
        self.dirs.insert(path.to_vec());
        Ok(())
    }
    fn fs_exists(&mut self, path: &[u8]) -> Result<bool, SyscallError> {
        Ok(self.files.contains_key(path) || self.dirs.contains(path))
    }
    fn fs_list(&mut self, path: &[u8]) -> Result<Option<Vec<String>>, SyscallError> {
        if !self.dirs.contains(path) {
            return Ok(None);
        }
        let mut prefix = path.to_vec();
        if prefix.last() != Some(&b'/') {
            prefix.push(b'/');
        }
        let mut names = Vec::new();
        for key in self.files.keys() {
            if key.len() > prefix.len() && key.starts_with(&prefix) {
                let rest = &key[prefix.len()..];
                if !rest.contains(&b'/') {
                    names.push(String::from_utf8_lossy(rest).into_owned());
                }
            }
        }
        Ok(Some(names))
    }
    fn fs_delete(&mut self, path: &[u8]) -> Result<(), SyscallError> {
        if self.files.remove(path).is_some() {
            Ok(())
        } else {
            Err(SyscallError::NotFound)
        }
    }
    fn sleep_nanos(&mut self, nanos: u64) -> Result<(), SyscallError> {
        self.slept += nanos;
        Ok(())
    }
    fn read_key(&mut self, _blocking: bool) -> i64 {
        // The mock yields a single 'k' keypress.
        KEY_K
    }
    fn fill_random(&mut self, out: &mut [u8]) -> Result<(), SyscallError> {
        // Deterministic non-zero fill for the test.
        for (i, b) in out.iter_mut().enumerate() {
            *b = (i as u8).wrapping_mul(31).wrapping_add(7);
        }
        Ok(())
    }
    fn open_channel(
        &mut self,
        _boundary: BoundaryId,
        capacity: usize,
        _max_message_bytes: usize,
    ) -> Result<u64, SyscallError> {
        let handle = self.next_handle;
        self.next_handle += 1;
        self.channels.insert(handle, (capacity, VecDeque::new()));
        Ok(handle)
    }
    fn channel_send(
        &mut self,
        _boundary: BoundaryId,
        handle: u64,
        data: &[u8],
    ) -> Result<(), SyscallError> {
        let (cap, queue) = self.channels.get_mut(&handle).ok_or(SyscallError::NotFound)?;
        // Full buffer => Catch-and-Release back-pressure, surfaced as WouldBlock.
        if queue.len() >= *cap {
            return Err(SyscallError::WouldBlock);
        }
        queue.push_back(data.to_vec());
        Ok(())
    }
    fn channel_recv(
        &mut self,
        _boundary: BoundaryId,
        handle: u64,
    ) -> Result<Vec<u8>, SyscallError> {
        let (_cap, queue) = self.channels.get_mut(&handle).ok_or(SyscallError::NotFound)?;
        queue.pop_front().ok_or(SyscallError::WouldBlock)
    }
    fn spawn(
        &mut self,
        _boundary: BoundaryId,
        entry: u64,
        arg: u64,
    ) -> Result<u64, SyscallError> {
        let lane = self.spawned.len() as u64;
        self.spawned.push((entry, arg));
        Ok(lane)
    }
    fn request_channel(
        &mut self,
        requester: BoundaryId,
        target: BoundaryId,
        terms: &ChannelTerms,
    ) -> Result<u64, SyscallError> {
        self.requests.push((requester, target, terms.clone()));
        Ok(self.requests.len() as u64)
    }
    fn poll_channel_request(
        &mut self,
        target: BoundaryId,
        out: &mut [u8],
    ) -> Result<u64, SyscallError> {
        for (i, (from, to, terms)) in self.requests.iter().enumerate() {
            if *to == target {
                let wire = ChannelRequestWire { requester: *from, terms: terms.clone() };
                out.copy_from_slice(&wire.to_bytes());
                return Ok(i as u64 + 1);
            }
        }
        Err(SyscallError::WouldBlock)
    }
    fn accept_channel(
        &mut self,
        _target: BoundaryId,
        request_id: u64,
    ) -> Result<u64, SyscallError> {
        Ok(request_id + 100)
    }
    fn reject_channel(
        &mut self,
        _target: BoundaryId,
        _request_id: u64,
    ) -> Result<(), SyscallError> {
        Ok(())
    }
    fn poll_channel_outcome(
        &mut self,
        _requester: BoundaryId,
        request_id: u64,
    ) -> Result<u64, SyscallError> {
        Ok(request_id + 200)
    }
    fn gate_bind(&mut self, owner: BoundaryId, gate: u16) -> Result<u64, SyscallError> {
        self.gates.push((owner, gate));
        Ok(0)
    }
    fn gate_connect(&mut self, _from: BoundaryId, gate: u16) -> Result<u64, SyscallError> {
        Ok(gate as u64)
    }
    fn gate_accept(&mut self, _owner: BoundaryId, gate: u16) -> Result<u64, SyscallError> {
        Ok(gate as u64 + 1)
    }
    fn link_send(
        &mut self,
        boundary: BoundaryId,
        handle: u64,
        data: &[u8],
    ) -> Result<(), SyscallError> {
        self.channel_send(boundary, handle, data)
    }
    fn link_recv(&mut self, boundary: BoundaryId, handle: u64) -> Result<Vec<u8>, SyscallError> {
        self.channel_recv(boundary, handle)
    }
    fn link_close(&mut self, _boundary: BoundaryId, handle: u64) -> Result<(), SyscallError> {
        match self.channels.remove(&handle) {
            Some(_) => Ok(()),
            None => Err(SyscallError::NotFound),
        }
    }
    fn warden_set(
        &mut self,
        _boundary: BoundaryId,
        _gate: u16,
        _allow: bool,
    ) -> Result<(), SyscallError> {
        Ok(())
    }
    fn gate_probe(&mut self, _boundary: BoundaryId, gate: u16) -> Result<u64, SyscallError> {
        Ok(if self.gates.iter().any(|g| g.1 == gate) { 1 } else { 0 })
    }
}

fn env_with(text: &str) -> MockEnv {
    MockEnv {
        base: 0x4000_0000,
        data: text.as_bytes().to_vec(),
        written: Vec::new(),
        clock: 123_456_789,
        files: BTreeMap::new(),
        dirs: BTreeSet::new(),
        channels: BTreeMap::new(),
        next_handle: 0,
        spawned: Vec::new(),
        requests: Vec::new(),
        gates: Vec::new(),
        slept: 0,
    }
}

/// Build an env whose user memory is exactly `bytes` at `base`.
fn env_bytes(bytes: &[u8]) -> MockEnv {
    let mut e = env_with("");
    e.data = bytes.to_vec();
    e
}

/// An environment with nothing but memory, console and clock.
fn bare(env: MockEnv) -> CoreOnly<MockEnv> {
    CoreOnly::new(env)
}

fn req(number: u64, a0: u64, a1: u64) -> SyscallRequest {
    req3(number, a0, a1, 0)
}

/// Build a request with all three argument registers.
fn req3(number: u64, a0: u64, a1: u64, a2: u64) -> SyscallRequest {
    SyscallRequest {
        number,
        arg0: a0,
        arg1: a1,
        arg2: a2,
        boundary: BoundaryId::new(1),
    }
}

fn failed(e: SyscallError) -> SyscallOutcome {
    SyscallOutcome::Return(e.as_return())
}

#[test]
fn log_writes_user_string() {
    let mut env = env_with("hello kernel");
    let r = req(Syscall::Log.number(), env.base, 12);
    assert_eq!(dispatch(&r, &mut env), SyscallOutcome::Return(0));
    assert_eq!(&env.written, b"hello kernel");
}

#[test]
fn log_rejects_out_of_range_pointer() {
    let mut env = env_with("hi");
    // Pointer past the mapped region.
    let r = req(Syscall::Log.number(), env.base + 100, 2);
    assert_eq!(dispatch(&r, &mut env), failed(SyscallError::BadAddress));
    assert!(env.written.is_empty());
}

#[test]
fn log_rejects_oversize_len() {
    let mut env = env_with("x");
    let r = req(Syscall::Log.number(), env.base, (MAX_LOG_LEN + 1) as u64);
    assert_eq!(dispatch(&r, &mut env), failed(SyscallError::InvalidArgument));
}

#[test]
fn unknown_syscall_is_rejected() {
    let mut env = env_with("");
    let r = req(9999, 0, 0);
    assert_eq!(dispatch(&r, &mut env), failed(SyscallError::NoSuchCall));
}

#[test]
fn exit_reports_code() {
    let mut env = env_with("");
    let r = req(Syscall::Exit.number(), 7, 0);
    assert_eq!(dispatch(&r, &mut env), SyscallOutcome::Exit(7));
}

#[test]
fn yield_reports_yield() {
    let mut env = env_with("");
    let r = req(Syscall::Yield.number(), 0, 0);
    assert_eq!(dispatch(&r, &mut env), SyscallOutcome::Yield);
}

#[test]
fn now_returns_clock() {
    let mut env = env_with("");
    let r = req(Syscall::Now.number(), 0, 0);
    assert_eq!(dispatch(&r, &mut env), SyscallOutcome::Return(123_456_789));
}

#[test]
fn sleep_returns_ok() {
    // A core-only environment lets a sleep pass at once.
    let mut env = bare(env_with(""));
    let r = req(Syscall::Sleep.number(), 5_000_000, 0);
    assert_eq!(dispatch(&r, &mut env), SyscallOutcome::Return(0));
    // One that can wait is asked to.
    let mut env = env_with("");
    assert_eq!(dispatch(&r, &mut env), SyscallOutcome::Return(0));
    assert_eq!(env.slept, 5_000_000);
}

#[test]
fn read_key_returns_encoded_event() {
    let mut env = env_with("");
    let r = req(Syscall::ReadKey.number(), 1, 0);
    let out = dispatch(&r, &mut env);
    let SyscallOutcome::Return(v) = out else {
        panic!("expected Return");
    };
    assert_eq!(v, KEY_K);
}

#[test]
fn get_random_fills_user_buffer() {
    // User memory is a 16-byte zeroed region at base; GetRandom must fill it.
    let mut env = env_bytes(&[0u8; 16]);
    let r = req(Syscall::GetRandom.number(), 0x4000_0000, 16);
    assert_eq!(dispatch(&r, &mut env), SyscallOutcome::Return(16));
    // The buffer is no longer all-zero (the mock filled it deterministically).
    assert!(env.data.iter().any(|&b| b != 0));
    // Zero length is rejected.
    let r0 = req(Syscall::GetRandom.number(), 0x4000_0000, 0);
    assert_eq!(dispatch(&r0, &mut env), failed(SyscallError::InvalidArgument));
}

#[test]
fn fs_write_then_read_through_syscalls() {
    // User memory layout: [path bytes][data bytes][FsRwArgs block][read buf].
    let path = b"/etc/passwd";
    let data = b"alice:hash";
    let base = 0x4000_0000u64;
    let path_off = 0usize;
    let data_off = path.len();
    let args_off = data_off + data.len();
    let readbuf_off = args_off + FS_RW_ARGS_LEN;
    let readbuf_len = 32usize;

    let write_args = FsRwArgs {
        path_ptr: base + path_off as u64,
        path_len: path.len() as u64,
        buf_ptr: base + data_off as u64,
        buf_len: data.len() as u64,
    };
    let mut mem = Vec::new();
    mem.extend_from_slice(path);
    mem.extend_from_slice(data);
    mem.extend_from_slice(&write_args.to_bytes());
    mem.extend_from_slice(&[0u8; 32]); // read buffer space
    let mut env = env_bytes(&mem);

    // fs_write(args_ptr)
    let wr = req(Syscall::FsWrite.number(), base + args_off as u64, 0);
    assert_eq!(dispatch(&wr, &mut env), SyscallOutcome::Return(data.len() as i64));
    assert_eq!(env.files.get(&path.to_vec()).unwrap(), data);

    // fs_read(args_ptr) into the read buffer; reuse an args block pointing at
    // the read buffer.
    let read_args = FsRwArgs {
        path_ptr: base + path_off as u64,
        path_len: path.len() as u64,
        buf_ptr: base + readbuf_off as u64,
        buf_len: readbuf_len as u64,
    };
    // Overwrite the args block in user memory with the read args.
    env.data[args_off..args_off + FS_RW_ARGS_LEN].copy_from_slice(&read_args.to_bytes());
    let rr = req(Syscall::FsRead.number(), base + args_off as u64, 0);
    assert_eq!(dispatch(&rr, &mut env), SyscallOutcome::Return(data.len() as i64));
    // The data landed in the read buffer.
    let got = &env.data[readbuf_off..readbuf_off + data.len()];
    assert_eq!(got, data);
}

#[test]
fn fs_read_missing_is_not_found() {
    // Layout: [path at 0][args block at 64][read buf at 96].
    let path = b"/nope";
    let base = 0x4000_0000u64;
    let args = FsRwArgs {
        path_ptr: base,
        path_len: path.len() as u64,
        buf_ptr: base + 96,
        buf_len: 16,
    };
    let mut mem = Vec::new();
    mem.extend_from_slice(path);
    mem.resize(64, 0);
    mem.extend_from_slice(&args.to_bytes()); // 64..96
    mem.resize(96 + 16, 0); // read buffer
    let mut env = env_bytes(&mem);
    let r = req(Syscall::FsRead.number(), base + 64, 0);
    assert_eq!(dispatch(&r, &mut env), failed(SyscallError::NotFound));
}

#[test]
fn fs_list_and_delete_through_syscalls() {
    // Set up a dir /d with two files via the env directly, then exercise the
    // FsList and FsDelete syscalls through dispatch.
    let base = 0x4000_0000u64;
    let mut env = env_with("");
    env.dirs.insert(b"/d".to_vec());
    env.files.insert(b"/d/a".to_vec(), b"x".to_vec());
    env.files.insert(b"/d/b".to_vec(), b"y".to_vec());

    // User memory: [path "/d"][FsRwArgs][listing buffer].
    let path = b"/d";
    let args_off = path.len();
    let buf_off = args_off + FS_RW_ARGS_LEN;
    let buf_len = 32usize;
    let list_args = FsRwArgs {
        path_ptr: base,
        path_len: path.len() as u64,
        buf_ptr: base + buf_off as u64,
        buf_len: buf_len as u64,
    };
    let mut mem = Vec::new();
    mem.extend_from_slice(path);
    mem.extend_from_slice(&list_args.to_bytes());
    mem.extend_from_slice(&vec![0u8; buf_len]);
    env.data = mem;

    // FsList -> writes "a\nb" (3 bytes) into the buffer.
    let lr = req(Syscall::FsList.number(), base + args_off as u64, 0);
    let out = dispatch(&lr, &mut env);
    // The listing is "a" and "b" joined by '\n' = 3 bytes (order from BTreeMap).
    assert_eq!(out, SyscallOutcome::Return(3));
    let written: Vec<u8> = env.data[buf_off..buf_off + 3].to_vec();
    assert_eq!(&written, b"a\nb");

    // FsDelete /d/a -> 0, then listing has only "b".
    let delpath = b"/d/a";
    // Reuse arg0/arg1 path-style for FsDelete: put the path at base again.
    env.data = delpath.to_vec();
    let dr = req(Syscall::FsDelete.number(), base, delpath.len() as u64);
    assert_eq!(dispatch(&dr, &mut env), SyscallOutcome::Return(0));
    assert!(!env.files.contains_key(&delpath.to_vec()));
    // Deleting a missing file -> NotFound.
    assert_eq!(dispatch(&dr, &mut env), failed(SyscallError::NotFound));
}

#[test]
fn fs_mkdir_and_exists() {
    let path = b"/home";
    let base = 0x4000_0000u64;
    let mut env = env_bytes(path);
    let mk = req(Syscall::FsMkdir.number(), base, path.len() as u64);
    assert_eq!(dispatch(&mk, &mut env), SyscallOutcome::Return(0));
    let ex = req(Syscall::FsExists.number(), base, path.len() as u64);
    assert_eq!(dispatch(&ex, &mut env), SyscallOutcome::Return(1));
    // A different path does not exist.
    let mut env2 = env_bytes(b"/other");
    let ex2 = req(Syscall::FsExists.number(), base, 6);
    assert_eq!(dispatch(&ex2, &mut env2), SyscallOutcome::Return(0));
}

#[test]
fn fs_default_env_denies() {
    // Without a filesystem access is rejected.
    let mut env = bare(env_bytes(b"/x"));
    let r = req(Syscall::FsExists.number(), 0x4000_0000, 2);
    assert_eq!(dispatch(&r, &mut env), failed(SyscallError::NotPermitted));
}

#[test]
fn open_channel_returns_handle() {
    let mut env = env_with("");
    // capacity=4 messages, max 64 bytes each.
    let r = req(Syscall::OpenChannel.number(), 4, 64);
    // First handle is 0 (the mock's counter starts at 0).
    assert_eq!(dispatch(&r, &mut env), SyscallOutcome::Return(0));
    // A second open yields a distinct handle.
    assert_eq!(dispatch(&r, &mut env), SyscallOutcome::Return(1));
    assert_eq!(env.channels.len(), 2);
}

#[test]
fn open_channel_rejects_zero_capacity_or_size() {
    let mut env = env_with("");
    let bad_cap = req(Syscall::OpenChannel.number(), 0, 64);
    assert_eq!(dispatch(&bad_cap, &mut env), failed(SyscallError::InvalidArgument));
    let bad_size = req(Syscall::OpenChannel.number(), 4, 0);
    assert_eq!(dispatch(&bad_size, &mut env), failed(SyscallError::InvalidArgument));
    // Oversized message bound is rejected too.
    let too_big = req(Syscall::OpenChannel.number(), 4, (MAX_FS_IO_LEN + 1) as u64);
    assert_eq!(dispatch(&too_big, &mut env), failed(SyscallError::InvalidArgument));
}

#[test]
fn channel_send_then_recv_round_trips() {
    let mut env = env_with("");
    // Open a channel (handle 0).
    let open = req(Syscall::OpenChannel.number(), 4, 64);
    assert_eq!(dispatch(&open, &mut env), SyscallOutcome::Return(0));

    // Lay out user memory: 5 payload bytes at base, then a 64-byte recv buffer.
    let payload = b"hello";
    let recv_off = payload.len();
    let recv_cap = 64usize;
    let mut mem = Vec::new();
    mem.extend_from_slice(payload);
    mem.extend_from_slice(&vec![0u8; recv_cap]);
    env.data = mem;
    let base = env.base;

    // Send: arg0=handle 0, arg1=ptr to payload, arg2=len.
    let send = req3(Syscall::ChannelSend.number(), 0, base, payload.len() as u64);
    assert_eq!(dispatch(&send, &mut env), SyscallOutcome::Return(0));

    // Recv: arg0=handle 0, arg1=ptr to recv buffer, arg2=capacity.
    // Returns the byte count written (5).
    let recv = req3(
        Syscall::ChannelRecv.number(),
        0,
        base + recv_off as u64,
        recv_cap as u64,
    );
    assert_eq!(dispatch(&recv, &mut env), SyscallOutcome::Return(payload.len() as i64));
    let got = env.data[recv_off..recv_off + payload.len()].to_vec();
    assert_eq!(&got, payload);
}

#[test]
fn channel_send_full_buffer_would_block() {
    let mut env = env_with("");
    // Capacity 1.
    let open = req(Syscall::OpenChannel.number(), 1, 64);
    assert_eq!(dispatch(&open, &mut env), SyscallOutcome::Return(0));
    let payload = b"x";
    env.data = payload.to_vec();
    let base = env.base;
    let send = req3(Syscall::ChannelSend.number(), 0, base, 1);
    // First send fits.
    assert_eq!(dispatch(&send, &mut env), SyscallOutcome::Return(0));
    // Second send hits back-pressure -> WouldBlock (Catch-and-Release parks the lane).
    assert_eq!(dispatch(&send, &mut env), failed(SyscallError::WouldBlock));
}

#[test]
fn channel_recv_empty_would_block() {
    let mut env = env_with("");
    let open = req(Syscall::OpenChannel.number(), 4, 64);
    assert_eq!(dispatch(&open, &mut env), SyscallOutcome::Return(0));
    // Recv on an empty (but open) channel -> WouldBlock.
    env.data = vec![0u8; 64];
    let base = env.base;
    let recv = req3(Syscall::ChannelRecv.number(), 0, base, 64);
    assert_eq!(dispatch(&recv, &mut env), failed(SyscallError::WouldBlock));
}

#[test]
fn channel_ops_on_unknown_handle_not_found() {
    let mut env = env_with("");
    env.data = vec![0u8; 64];
    let base = env.base;
    // No channel opened; handle 7 does not exist.
    let send = req3(Syscall::ChannelSend.number(), 7, base, 1);
    assert_eq!(dispatch(&send, &mut env), failed(SyscallError::NotFound));
    let recv = req3(Syscall::ChannelRecv.number(), 7, base, 64);
    assert_eq!(dispatch(&recv, &mut env), failed(SyscallError::NotFound));
}

#[test]
fn spawn_records_entry_and_arg() {
    let mut env = env_with("");
    // arg0 = entry pointer, arg1 = argument word.
    let r = req(Syscall::Spawn.number(), 0xdead_beef, 42);
    // First lane id is 0.
    assert_eq!(dispatch(&r, &mut env), SyscallOutcome::Return(0));
    // Second spawn -> lane id 1.
    let r2 = req(Syscall::Spawn.number(), 0xfeed_face, 7);
    assert_eq!(dispatch(&r2, &mut env), SyscallOutcome::Return(1));
    assert_eq!(env.spawned.len(), 2);
    assert_eq!(env.spawned[0], (0xdead_beef, 42));
    assert_eq!(env.spawned[1], (0xfeed_face, 7));
}

#[test]
fn track2_default_env_denies() {
    // Without channels and scheduling these calls are rejected.
    let mut core = env_with("");
    core.base = 0;
    let mut env = bare(core);
    let denied = failed(SyscallError::NotPermitted);
    assert_eq!(dispatch(&req(Syscall::OpenChannel.number(), 4, 64), &mut env), denied);
    assert_eq!(dispatch(&req3(Syscall::ChannelSend.number(), 0, 0, 0), &mut env), denied);
    assert_eq!(dispatch(&req3(Syscall::ChannelRecv.number(), 0, 0, 0), &mut env), denied);
    assert_eq!(dispatch(&req(Syscall::Spawn.number(), 0, 0), &mut env), denied);
}

// ---- Handshake syscall dispatch (decode/validate + wire round-trip) -------

#[test]
fn channel_terms_wire_round_trips() {
    let terms = ChannelTerms::new("telemetry", ChannelDirection::Bidirectional, 256, 8).unwrap();
    let bytes = terms.to_bytes();
    let back = ChannelTerms::from_bytes(&bytes).unwrap();
    assert_eq!(back, terms, "terms survive wire encode/decode unchanged");
}

#[test]
fn channel_request_wire_round_trips() {
    let terms = ChannelTerms::new("rpc", ChannelDirection::RequesterToReceiver, 64, 2).unwrap();
    let wire = ChannelRequestWire {
        requester: BoundaryId(0x100),
        terms: terms.clone(),
    };
    let bytes = wire.to_bytes();
    let back = ChannelRequestWire::from_bytes(&bytes).unwrap();
    assert_eq!(back.requester, BoundaryId(0x100));
    assert_eq!(back.terms, terms);
}

fn terms_env(name: &str) -> (MockEnv, u64) {
    let terms = ChannelTerms::new(name, ChannelDirection::Bidirectional, 32, 1).unwrap();
    let bytes = terms.to_bytes();
    let mut env = env_with("");
    env.base = 0x1000;
    env.data = bytes.to_vec();
    let len = bytes.len() as u64;
    (env, len)
}

#[test]
fn request_channel_to_self_is_rejected() {
    // Build a valid terms buffer in the mock's mapped region, then target the
    // CALLER's own boundary (1) -- dispatch must reject this as InvalidArgument
    // (cross-boundary handshake is between DISTINCT boundaries).
    let (mut env, len) = terms_env("x");
    let r = req3(
        Syscall::RequestChannel.number(),
        1, /* target == caller boundary (1) */
        0x1000,
        len,
    );
    assert_eq!(dispatch(&r, &mut env), failed(SyscallError::InvalidArgument));
    assert!(env.requests.is_empty());
}

#[test]
fn request_channel_short_terms_buffer_is_rejected() {
    // terms_len below the wire length must be rejected before any copy.
    let mut env = env_with("");
    let r = req3(Syscall::RequestChannel.number(), 2, 0x1000, 4);
    assert_eq!(dispatch(&r, &mut env), failed(SyscallError::InvalidArgument));
}

#[test]
fn handshake_calls_default_to_not_permitted_without_ipc() {
    // A valid cross-boundary request (distinct target, full buffer) reaches the
    // environment, and one without channels reports NotPermitted.
    let (env, len) = terms_env("y");
    let mut env = bare(env);
    let r = req3(Syscall::RequestChannel.number(), 2, 0x1000, len);
    assert_eq!(dispatch(&r, &mut env), failed(SyscallError::NotPermitted));
    // Accept/Reject/Outcome also report NotPermitted.
    assert_eq!(
        dispatch(&req(Syscall::AcceptChannel.number(), 0, 0), &mut env),
        failed(SyscallError::NotPermitted)
    );
    assert_eq!(
        dispatch(&req(Syscall::PollChannelOutcome.number(), 0, 0), &mut env),
        failed(SyscallError::NotPermitted)
    );
}

// ---- Lattice net syscall dispatch (decode/validate + reaches env) ---------

#[test]
fn net_syscalls_reach_env_default_not_permitted() {
    // A valid call (gate in range) reaches the environment, and one without a
    // Lattice reports NotPermitted.
    let mut env = bare(env_with(""));
    for call in [
        Syscall::GateBind,
        Syscall::GateConnect,
        Syscall::GateAccept,
        Syscall::WardenSet,
        Syscall::GateProbe,
    ] {
        assert_eq!(
            dispatch(&req(call.number(), 80, 1), &mut env),
            failed(SyscallError::NotPermitted),
            "{call:?} should reach env and report NotPermitted",
        );
    }
}

#[test]
fn gate_out_of_range_is_invalid_argument() {
    // A gate number above u16::MAX is rejected by dispatch BEFORE the env.
    let mut env = env_with("");
    let big = (u16::MAX as u64) + 1;
    for call in [Syscall::GateBind, Syscall::GateConnect, Syscall::GateProbe] {
        assert_eq!(
            dispatch(&req(call.number(), big, 0), &mut env),
            failed(SyscallError::InvalidArgument),
            "{call:?} with out-of-range gate should be InvalidArgument",
        );
    }
    assert!(env.gates.is_empty());
}

#[test]
fn link_close_reaches_env() {
    // LinkClose takes a scalar handle; without a Lattice it is not permitted.
    let mut env = bare(env_with(""));
    assert_eq!(
        dispatch(&req(Syscall::LinkClose.number(), 0, 0), &mut env),
        failed(SyscallError::NotPermitted)
    );
}

#[test]
fn call_numbers_select_their_calls() {
    for n in 0..30u64 {
        let call = Syscall::from_number(n).unwrap();
        assert_eq!(call.number(), n);
    }
    assert_eq!(Syscall::from_number(30), None);
    assert_eq!(Syscall::Log.number(), 0);
    assert_eq!(Syscall::GateProbe.number(), 29);
}

#[test]
fn argument_blocks_round_trip() {
    let args = FsRwArgs { path_ptr: 1, path_len: 2, buf_ptr: u64::MAX, buf_len: 0x0102_0304 };
    let bytes = args.to_bytes();
    assert_eq!(bytes.len(), FS_RW_ARGS_LEN);
    assert_eq!(&bytes[24..28], &[4, 3, 2, 1]);
    let back = FsRwArgs::from_bytes(&bytes);
    assert_eq!(back.buf_ptr, u64::MAX);
    assert_eq!(back.buf_len, 0x0102_0304);
}

#[test]
fn terms_are_checked() {
    let dir = ChannelDirection::Bidirectional;
    assert!(ChannelTerms::new("", dir, 1, 1).is_err());
    assert!(ChannelTerms::new("p", dir, 0, 1).is_err());
    assert!(ChannelTerms::new("p", dir, 1, 0).is_err());
    assert!(ChannelTerms::new("a-protocol-name-of-thirty-two-by", dir, 1, 1).is_ok());
    assert!(ChannelTerms::new("a-protocol-name-of-thirty-three-b", dir, 1, 1).is_err());
    assert!(ChannelTerms::from_bytes(&[0u8; 48]).is_none());
}

#[test]
fn oversize_transfers_are_refused() {
    let base = 0x4000_0000u64;
    let mut env = env_bytes(&[b'x'; 64]);
    let long = (MAX_PATH_LEN + 1) as u64;
    assert_eq!(
        dispatch(&req(Syscall::FsMkdir.number(), base, long), &mut env),
        failed(SyscallError::InvalidArgument)
    );
    assert_eq!(
        dispatch(&req(Syscall::FsMkdir.number(), base, 0), &mut env),
        failed(SyscallError::InvalidArgument)
    );
    let args = FsRwArgs {
        path_ptr: base,
        path_len: 4,
        buf_ptr: base,
        buf_len: (MAX_FS_IO_LEN + 1) as u64,
    };
    env.data[..FS_RW_ARGS_LEN].copy_from_slice(&args.to_bytes());
    assert_eq!(
        dispatch(&req(Syscall::FsWrite.number(), base, 0), &mut env),
        failed(SyscallError::InvalidArgument)
    );
    assert!(env.files.is_empty());
}

#[test]
fn requests_act_for_the_caller() {
    let (mut env, len) = terms_env("z");
    let r = req3(Syscall::RequestChannel.number(), 2, 0x1000, len);
    assert_eq!(dispatch(&r, &mut env), SyscallOutcome::Return(1));
    assert_eq!(env.requests[0].0, BoundaryId::new(1));
    assert_eq!(env.requests[0].1, BoundaryId::new(2));
    assert_eq!(env.requests[0].2.max_message_bytes, 32);
    assert_eq!(dispatch(&req(Syscall::GateBind.number(), 80, 0), &mut env), SyscallOutcome::Return(0));
    assert_eq!(env.gates, vec![(BoundaryId::new(1), 80)]);
    assert_eq!(dispatch(&req(Syscall::GateProbe.number(), 80, 0), &mut env), SyscallOutcome::Return(1));
    assert_eq!(
        dispatch(&req(Syscall::PollChannelOutcome.number(), 7, 0), &mut env),
        SyscallOutcome::Return(207)
    );
}

#[test]
fn no_length_of_a_link_send_is_fatal() {
    let mut env = env_with("ping");
    let base = env.base;
    let r = req3(Syscall::LinkSend.number(), 0, base, u64::MAX);
    assert_eq!(dispatch(&r, &mut env), failed(SyscallError::InvalidArgument));
    let r = req3(Syscall::LinkSend.number(), 0, base, 5);
    assert_eq!(dispatch(&r, &mut env), failed(SyscallError::BadAddress));
}

#[test]
fn link_messages_must_fit() {
    let mut env = env_with("ping....");
    let base = env.base;
    env.channels.insert(3, (4, VecDeque::new()));
    let send = req3(Syscall::LinkSend.number(), 3, base, 4);
    assert_eq!(dispatch(&send, &mut env), SyscallOutcome::Return(0));
    assert_eq!(dispatch(&send, &mut env), SyscallOutcome::Return(0));
    // Unlike a channel message, what a link delivers is not cut.
    let recv = req3(Syscall::LinkRecv.number(), 3, base + 4, 3);
    assert_eq!(dispatch(&recv, &mut env), failed(SyscallError::InvalidArgument));
    let recv = req3(Syscall::LinkRecv.number(), 3, base + 4, 4);
    assert_eq!(dispatch(&recv, &mut env), SyscallOutcome::Return(4));
    assert_eq!(&env.data, b"pingping");
    let close = req(Syscall::LinkClose.number(), 3, 0);
    assert_eq!(dispatch(&close, &mut env), SyscallOutcome::Return(0));
    assert_eq!(dispatch(&close, &mut env), failed(SyscallError::NotFound));
}

#[test]
fn channel_messages_are_cut_to_the_buffer() {
    let mut env = env_with("hello");
    let base = env.base;
    env.channels.insert(0, (1, VecDeque::new()));
    let send = req3(Syscall::ChannelSend.number(), 0, base, 5);
    assert_eq!(dispatch(&send, &mut env), SyscallOutcome::Return(0));
    env.data = vec![b'.'; 5];
    let recv = req3(Syscall::ChannelRecv.number(), 0, base, 2);
    assert_eq!(dispatch(&recv, &mut env), SyscallOutcome::Return(2));
    assert_eq!(&env.data, b"he...");
}

#[test]
fn errors_return_distinct_negative_values() {
    let all = [
        SyscallError::NoSuchCall,
        SyscallError::InvalidArgument,
        SyscallError::BadAddress,
        SyscallError::NotPermitted,
        SyscallError::NotFound,
        SyscallError::WouldBlock,
    ];
    let values: BTreeSet<i64> = all.iter().map(|e| e.as_return()).collect();
    assert_eq!(values.len(), all.len());
    assert!(values.iter().all(|v| *v < 0));
}

#[test]
fn polled_request_reaches_the_user() {
    let (mut env, len) = terms_env("w");
    let r = req3(Syscall::RequestChannel.number(), 2, 0x1000, len);
    assert_eq!(dispatch(&r, &mut env), SyscallOutcome::Return(1));
    env.data = vec![0u8; 56];
    let mut poll = req(Syscall::PollChannelRequest.number(), 0x1000, 56);
    // Not addressed to the caller.
    assert_eq!(dispatch(&poll, &mut env), failed(SyscallError::WouldBlock));
    poll.boundary = BoundaryId::new(2);
    assert_eq!(dispatch(&poll, &mut env), SyscallOutcome::Return(1));
    let wire = ChannelRequestWire::from_bytes(&env.data).unwrap();
    assert_eq!(wire.requester, BoundaryId::new(1));
    poll.arg1 = 55;
    assert_eq!(dispatch(&poll, &mut env), failed(SyscallError::InvalidArgument));
}

#[test]
fn words_are_cut_to_the_width_of_a_length() {
    let mut env = env_with("");
    let word = 1u64 << 32;
    let r = req(Syscall::OpenChannel.number(), word, 64);
    let cut = word as usize;
    if cut == 0 {
        assert_eq!(dispatch(&r, &mut env), failed(SyscallError::InvalidArgument));
    } else {
        assert_eq!(dispatch(&r, &mut env), SyscallOutcome::Return(0));
        assert_eq!(env.channels[&0].0, cut);
    }
}

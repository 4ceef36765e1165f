//! Block devices.
//!
//! The portable interface between storage drivers and the layers above them. A
//! block device is a fixed-size array of 512-byte logical blocks addressed by
//! block number (LBA). Reads and writes operate on whole blocks; partial-block
//! access is the caller's concern.
use vstd::prelude::*;

verus! {

/// Logical block size in bytes.
pub const BLOCK_SIZE: usize = 512;

/// A block I/O error.
#[derive(Debug, Clone, Copy, PartialEq, Eq, Structural)]
pub enum BlockError {
    /// The LBA (or LBA + count) is outside the device.
    OutOfRange,
    /// The caller's buffer length does not match the requested block count.
    BadBuffer,
    /// The device reported an error (driver-specific hardware failure).
    DeviceError,
    /// The operation timed out waiting on the device.
    Timeout,
    /// The device is read-only and a write was attempted.
    ReadOnly,
}

/// Why a request for `count` blocks at `lba` with a buffer of `buf_len` bytes is
/// refused by a device of `total` blocks, if it is.
pub open spec fn range_fault(total: int, lba: int, count: int, buf_len: int) -> Option<BlockError> {
    if count == 0 || buf_len != count * 512 {
        Some(BlockError::BadBuffer)
    } else if lba + count > total {
        Some(BlockError::OutOfRange)
    } else {
        None
    }
}

/// Whether `e` is a failure that only the device itself decides on.
pub open spec fn is_hardware_fault(e: BlockError) -> bool {
    e is DeviceError || e is Timeout
}

/// The `i`-th block of a buffer that holds whole blocks.
pub open spec fn buffer_block(buf: Seq<u8>, i: int) -> Seq<u8> {
    buf.subrange(i * 512, i * 512 + 512)
}

/// The blocks of a device after `count` blocks of `buf` were written at `lba`.
pub open spec fn blocks_written(
    blocks: Seq<Seq<u8>>,
    lba: int,
    count: int,
    buf: Seq<u8>,
) -> Seq<Seq<u8>> {
    Seq::new(
        blocks.len(),
        |b: int|
            if lba <= b < lba + count {
                buffer_block(buf, b - lba)
            } else {
                blocks[b]
            },
    )
}

/// What a device holds, block by block.
pub type Blocks = Seq<Seq<u8>>;

/// A fixed-size array of 512-byte logical blocks.
pub trait BlockDevice {
    /// What the device holds, block by block.
    spec fn blocks(&self) -> Blocks;

    /// The device never reports a hardware fault.
    spec fn sound(&self) -> bool;

    /// The device refuses writes.
    spec fn write_protected(&self) -> bool;

    /// Total number of addressable blocks.
    fn block_count(&self) -> (n: u64)
        ensures
            n == self.blocks().len(),
            forall|b: int| 0 <= b < n ==> (#[trigger] self.blocks()[b]).len() == 512,
    ;

    /// Whether the device rejects writes.
    fn is_read_only(&self) -> (r: bool)
        ensures
            r ==> self.write_protected(),
        default_ensures
            !r,
    {
        false
    }

    /// Read `count` blocks starting at `lba` into `buf`, which must be exactly
    /// `count * BLOCK_SIZE` bytes.
    fn read_blocks(&self, lba: u64, count: u32, buf: &mut [u8]) -> (r: Result<(), BlockError>)
        ensures
            final(buf)@.len() == old(buf)@.len(),
            match range_fault(
                self.blocks().len() as int,
                lba as int,
                count as int,
                old(buf)@.len() as int,
            ) {
                Some(e) => r == Err::<(), BlockError>(e),
                None => {
                    &&& r matches Err(e) ==> is_hardware_fault(e) && !self.sound()
                    &&& r is Ok ==> forall|i: int|
                        0 <= i < count ==> #[trigger] buffer_block(final(buf)@, i)
                            == self.blocks()[lba + i]
                },
            },
    ;

    /// Write `count` blocks starting at `lba` from `buf`, which must be exactly
    /// `count * BLOCK_SIZE` bytes. A hardware fault leaves the blocks outside the
    /// requested range as they were.
    fn write_blocks(&mut self, lba: u64, count: u32, buf: &[u8]) -> (r: Result<(), BlockError>)
        ensures
            final(self).sound() == old(self).sound(),
            final(self).write_protected() == old(self).write_protected(),
            final(self).blocks().len() == old(self).blocks().len(),
            match range_fault(
                old(self).blocks().len() as int,
                lba as int,
                count as int,
                buf@.len() as int,
            ) {
                Some(e) => {
                    &&& r == Err::<(), BlockError>(e) || (old(self).write_protected() && r == Err::<
                        (),
                        BlockError,
                    >(BlockError::ReadOnly))
                    &&& final(self).blocks() == old(self).blocks()
                },
                None => {
                    &&& old(self).write_protected() ==> r == Err::<(), BlockError>(
                        BlockError::ReadOnly,
                    ) && final(self).blocks() == old(self).blocks()
                    &&& !old(self).write_protected() ==> match r {
                        Ok(_) => final(self).blocks() == blocks_written(
                            old(self).blocks(),
                            lba as int,
                            count as int,
                            buf@,
                        ),
                        Err(e) => {
                            &&& is_hardware_fault(e)
                            &&& !old(self).sound()
                            &&& forall|b: int|
                                0 <= b < old(self).blocks().len() && !(lba <= b < lba + count)
                                    ==> #[trigger] final(self).blocks()[b]
                                    == old(self).blocks()[b]
                        },
                    }
                },
            },
    ;
}

/// Validate an LBA range and buffer size against a device of `total` blocks.
/// Drivers call this at the top of read/write to centralize the bounds checks.
pub fn check_range(total: u64, lba: u64, count: u32, buf_len: usize) -> (r: Result<(), BlockError>)
    ensures
        r == match range_fault(total as int, lba as int, count as int, buf_len as int) {
            Some(e) => Err::<(), BlockError>(e),
            None => Ok::<(), BlockError>(()),
        },
{
    if count == 0 {
        return Err(BlockError::BadBuffer);
    }
    if buf_len as u64 != count as u64 * 512 {
        return Err(BlockError::BadBuffer);
    }
    match lba.checked_add(count as u64) {
        None => Err(BlockError::OutOfRange),
        Some(end) => if end > total {
            Err(BlockError::OutOfRange)
        } else {
            Ok(())
        },
    }
}

/// A block device that lives in memory.
pub struct RamDisk {
    blocks: Vec<Vec<u8>>,
    read_only: bool,
}

impl RamDisk {
    /// The contents, block by block.
    pub closed spec fn contents(&self) -> Seq<Seq<u8>> {
        Seq::new(self.blocks@.len(), |b: int| self.blocks@[b]@)
    }

    /// Whether writes are refused.
    pub closed spec fn locked(&self) -> bool {
        self.read_only
    }

    #[verifier::type_invariant]
    spec fn shaped(&self) -> bool {
        forall|b: int| 0 <= b < self.blocks@.len() ==> (#[trigger] self.blocks@[b])@.len() == 512
    }

    /// A disk of `count` zeroed blocks.
    pub fn new(count: usize) -> (disk: RamDisk)
        ensures
            disk.contents() == Seq::new(count as nat, |b: int| Seq::new(512, |i: int| 0u8)),
            !disk.locked(),
    {
        let mut blocks: Vec<Vec<u8>> = Vec::new();
        let mut b: usize = 0;
        while b < count
            invariant
                b <= count,
                blocks@.len() == b,
                forall|i: int|
                    0 <= i < b ==> (#[trigger] blocks@[i])@ == Seq::new(512, |i: int| 0u8),
            decreases count - b,
        {
            let zero: Vec<u8> = vec![0u8;BLOCK_SIZE];
            assert(zero@ =~= Seq::new(512, |i: int| 0u8));
            blocks.push(zero);
            b = b + 1;
        }
        let disk = RamDisk { blocks, read_only: false };
        assert(disk.contents() =~= Seq::new(count as nat, |b: int| Seq::new(512, |i: int| 0u8)));
        disk
    }

    /// Make the disk refuse (or accept) writes.
    pub fn set_read_only(&mut self, read_only: bool)
        ensures
            final(self).contents() == old(self).contents(),
            final(self).locked() == read_only,
    {
        proof {
            use_type_invariant(&*self);
        }
        self.read_only = read_only;
    }
}

impl BlockDevice for RamDisk {
    open spec fn blocks(&self) -> Seq<Seq<u8>> {
        self.contents()
    }

    open spec fn sound(&self) -> bool {
        true
    }

    open spec fn write_protected(&self) -> bool {
        self.locked()
    }

    fn block_count(&self) -> (n: u64) {
        proof {
            use_type_invariant(self);
        }
        self.blocks.len() as u64
    }

    fn is_read_only(&self) -> (r: bool)
        ensures
            r == self.locked(),
    {
        self.read_only
    }

    fn read_blocks(&self, lba: u64, count: u32, buf: &mut [u8]) -> (r: Result<(), BlockError>) {
        proof {
            use_type_invariant(self);
        }
        match check_range(self.block_count(), lba, count, buf.len()) {
            Err(e) => Err(e),
            Ok(()) => {
                let total: usize = buf.len();
                let len: usize = self.blocks.len();
                let mut at: usize = 0;
                while at < total
                    invariant
                        at <= total,
                        total == count * 512,
                        buf@.len() == total,
                        self.shaped(),
                        len == self.blocks@.len(),
                        lba + count <= len,
                        forall|i: int|
                            0 <= i < at ==> buf@[i] == self.blocks@[lba + i / 512]@[i % 512],
                    decreases total - at,
                {
                    let block: usize = lba as usize + at / BLOCK_SIZE;
                    assert(self.blocks@[block as int]@.len() == 512);
                    buf[at] = self.blocks[block][at % BLOCK_SIZE];
                    at = at + 1;
                }
                assert forall|i: int| 0 <= i < count implies #[trigger] buffer_block(buf@, i)
                    == self.blocks()[lba + i] by {
                    assert(self.blocks@[lba + i]@.len() == 512);
                    assert forall|j: int| 0 <= j < 512 implies #[trigger] buffer_block(buf@, i)[j]
                        == self.blocks@[lba + i]@[j] by {
                        assert((i * 512 + j) / 512 == i);
                        assert((i * 512 + j) % 512 == j);
                    }
                    assert(buffer_block(buf@, i) =~= self.blocks@[lba + i]@);
                }
                Ok(())
            },
        }
    }

    fn write_blocks(&mut self, lba: u64, count: u32, buf: &[u8]) -> (r: Result<(), BlockError>) {
        proof {
            use_type_invariant(&*self);
        }
        match check_range(self.block_count(), lba, count, buf.len()) {
            Err(e) => Err(e),
            Ok(()) => {
                if self.read_only {
                    return Err(BlockError::ReadOnly);
                }
                let total: usize = buf.len();
                let len: usize = self.blocks.len();
                let mut blocks: Vec<Vec<u8>> = Vec::new();
                core::mem::swap(&mut self.blocks, &mut blocks);
                let mut k: usize = 0;
                while k < count as usize
                    invariant
                        k <= count,
                        buf@.len() == total,
                        total == count * 512,
                        len == old(self).blocks@.len(),
                        lba + count <= len,
                        old(self).shaped(),
                        blocks@.len() == len,
                        forall|b: int|
                            #![trigger blocks@[b]]
                            0 <= b < len ==> blocks@[b]@ == if lba <= b < lba + k {
                                buffer_block(buf@, b - lba)
                            } else {
                                old(self).blocks@[b]@
                            },
                    decreases count - k,
                {
                    let start: usize = k * BLOCK_SIZE;
                    let block: Vec<u8> = vstd::slice::slice_to_vec(
                        vstd::slice::slice_subrange(buf, start, start + BLOCK_SIZE),
                    );
                    blocks[lba as usize + k] = block;
                    k = k + 1;
                }
                core::mem::swap(&mut self.blocks, &mut blocks);
                assert(self.blocks() =~= blocks_written(
                    old(self).blocks(),
                    lba as int,
                    count as int,
                    buf@,
                ));
                Ok(())
            },
        }
    }
}

/// A request is in order exactly if it is for some block, its buffer is as long as the
/// blocks are together, and all of them are on the device.
pub proof fn requests_are_checked(
    total: u64,
    lba: u64,
    count: u32,
    buf_len: usize,
    r: Result<(), BlockError>,
)
    requires
        call_ensures(check_range, (total, lba, count, buf_len), r),
    ensures
        r is Ok <==> count >= 1 && buf_len == count * 512 && lba + count <= total,
        r == Err::<(), BlockError>(BlockError::BadBuffer) <==> count == 0 || buf_len != count * 512,
        r matches Err(e) ==> e is BadBuffer || e is OutOfRange,
{
}

/// What is written to a disk reads back, byte for byte, and every other block reads as it
/// did; where the disk refuses writes, everything does.
pub proof fn written_blocks_read_back(
    d: &mut RamDisk,
    after: RamDisk,
    lba: u64,
    count: u32,
    buf: &[u8],
    r: Result<(), BlockError>,
    out: &mut [u8],
    q: Result<(), BlockError>,
    b: int,
)
    requires
        after == *final(d),
        call_ensures(RamDisk::write_blocks, (d, lba, count, buf), r),
        old(out)@.len() == buf@.len(),
        call_ensures(RamDisk::read_blocks, (&after, lba, count, out), q),
        count >= 1,
        buf@.len() == count * 512,
        lba + count <= old(d).contents().len(),
        0 <= b < old(d).contents().len(),
    ensures
        q is Ok,
        old(d).locked() ==> r == Err::<(), BlockError>(BlockError::ReadOnly),
        old(d).locked() ==> after.contents() == old(d).contents(),
        !old(d).locked() ==> r is Ok && final(out)@ == buf@,
        after.contents().len() == old(d).contents().len(),
        !(lba <= b < lba + count) ==> after.contents()[b] == old(d).contents()[b],
        after.locked() == old(d).locked(),
{
    if !old(d).locked() {
        assert forall|i: int| 0 <= i < buf@.len() implies final(out)@[i] == buf@[i] by {
            let k = i / 512;
            let j = i % 512;
            assert(0 <= k < count);
            assert(buffer_block(final(out)@, k) == after.contents()[lba + k]);
            assert(after.contents()[lba + k] == buffer_block(buf@, k));
            assert(buffer_block(final(out)@, k)[j] == final(out)@[k * 512 + j]);
            assert(buffer_block(buf@, k)[j] == buf@[k * 512 + j]);
        }
        assert(final(out)@ =~= buf@);
    }
}

} // verus!

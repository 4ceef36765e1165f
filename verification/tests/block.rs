use cibos::kernel::block::{check_range, BlockDevice, BlockError, RamDisk, BLOCK_SIZE};

#[test]
fn write_then_read_roundtrip() {
    let mut dev = RamDisk::new(8);
    let mut out = vec![0xABu8; BLOCK_SIZE];
    dev.write_blocks(3, 1, &out).unwrap();
    let mut back = vec![0u8; BLOCK_SIZE];
    dev.read_blocks(3, 1, &mut back).unwrap();
    assert_eq!(out, back);
    // A different block is still zero.
    out.fill(0);
    dev.read_blocks(4, 1, &mut back).unwrap();
    assert_eq!(out, back);
}

#[test]
fn multi_block_roundtrip() {
    let mut dev = RamDisk::new(8);
    let mut pat = vec![0u8; BLOCK_SIZE * 3];
    for (i, b) in pat.iter_mut().enumerate() {
        *b = (i % 251) as u8;
    }
    dev.write_blocks(2, 3, &pat).unwrap();
    let mut back = vec![0u8; BLOCK_SIZE * 3];
    dev.read_blocks(2, 3, &mut back).unwrap();
    assert_eq!(pat, back);
}

#[test]
fn range_and_buffer_checks() {
    let dev = RamDisk::new(4);
    let mut buf = vec![0u8; BLOCK_SIZE];
    // Past the end.
    assert_eq!(dev.read_blocks(4, 1, &mut buf), Err(BlockError::OutOfRange));
    assert_eq!(dev.read_blocks(3, 2, &mut vec![0u8; 2 * BLOCK_SIZE]), Err(BlockError::OutOfRange));
    // Mis-sized buffer.
    assert_eq!(dev.read_blocks(0, 1, &mut vec![0u8; 10]), Err(BlockError::BadBuffer));
    // Zero count.
    assert_eq!(dev.read_blocks(0, 0, &mut []), Err(BlockError::BadBuffer));
}

#[test]
fn read_only_rejects_writes() {
    let mut dev = RamDisk::new(2);
    dev.set_read_only(true);
    assert!(dev.is_read_only());
    assert_eq!(dev.write_blocks(0, 1, &vec![0u8; BLOCK_SIZE]), Err(BlockError::ReadOnly));
}

#[test]
fn check_range_direct() {
    assert_eq!(check_range(10, 0, 1, BLOCK_SIZE), Ok(()));
    assert_eq!(check_range(10, 9, 1, BLOCK_SIZE), Ok(()));
    assert_eq!(check_range(10, 9, 2, 2 * BLOCK_SIZE), Err(BlockError::OutOfRange));
    assert_eq!(check_range(10, u64::MAX, 1, BLOCK_SIZE), Err(BlockError::OutOfRange));
    assert_eq!(check_range(10, 0, 1, 7), Err(BlockError::BadBuffer));
}

#[test]
fn refused_write_changes_nothing() {
    let mut dev = RamDisk::new(2);
    assert_eq!(dev.write_blocks(1, 2, &vec![9u8; 2 * BLOCK_SIZE]), Err(BlockError::OutOfRange));
    let mut back = vec![1u8; 2 * BLOCK_SIZE];
    dev.read_blocks(0, 2, &mut back).unwrap();
    assert_eq!(back, vec![0u8; 2 * BLOCK_SIZE]);
    assert_eq!(dev.block_count(), 2);
}

use cibos::kernel::block::{BlockDevice, BlockError, Blocks, RamDisk, BLOCK_SIZE};
use cibos::kernel::fs::Fs;
use cibos::kernel::fs_format::{FsError, MAX_FILE_SIZE};
use std::cell::Cell;

fn fresh(blocks: usize, inodes: u32) -> Fs<RamDisk> {
    Fs::format(RamDisk::new(blocks), inodes).unwrap()
}

#[test]
fn format_then_mount_roundtrips_superblock() {
    let fs = fresh(256, 64);
    let sb = *fs.superblock();
    let dev = fs.into_device();
    let fs2 = Fs::mount(dev).unwrap();
    assert_eq!(*fs2.superblock(), sb);
    assert_eq!(sb.total_blocks, 256);
    assert_eq!(sb.inode_count, 64);
}

#[test]
fn mount_rejects_unformatted() {
    let dev = RamDisk::new(64);
    assert_eq!(Fs::mount(dev).err(), Some(FsError::BadSuperblock));
}

#[test]
fn write_read_file_in_root() {
    let mut fs = fresh(256, 64);
    fs.write_file(b"/hello.txt", b"persistent bytes").unwrap();
    assert_eq!(fs.read_file(b"/hello.txt").unwrap(), b"persistent bytes");
    assert!(fs.path_exists(b"/hello.txt"));
    assert!(!fs.path_exists(b"/nope"));
}

#[test]
fn overwrite_grows_and_shrinks() {
    let mut fs = fresh(256, 64);
    let big = vec![7u8; BLOCK_SIZE + 100];
    fs.write_file(b"/f", &big).unwrap();
    assert_eq!(fs.read_file(b"/f").unwrap(), big);
    fs.write_file(b"/f", b"tiny").unwrap();
    assert_eq!(fs.read_file(b"/f").unwrap(), b"tiny");
}

#[test]
fn directories_and_paths() {
    let mut fs = fresh(256, 64);
    fs.mkdir(b"/etc").unwrap();
    fs.write_file(b"/etc/passwd", b"user:hash").unwrap();
    assert_eq!(fs.read_file(b"/etc/passwd").unwrap(), b"user:hash");
    let listing = fs.list_dir(b"/etc").unwrap();
    assert_eq!(listing.len(), 1);
    assert_eq!(listing[0].name, b"passwd");
    assert!(!listing[0].is_dir);
    let root = fs.list_dir(b"/").unwrap();
    assert_eq!(root.len(), 1);
    assert_eq!(root[0].name, b"etc");
    assert!(root[0].is_dir);
}

#[test]
fn nested_directories() {
    let mut fs = fresh(512, 128);
    fs.mkdir(b"/a").unwrap();
    fs.mkdir(b"/a/b").unwrap();
    fs.write_file(b"/a/b/c.txt", b"deep").unwrap();
    assert_eq!(fs.read_file(b"/a/b/c.txt").unwrap(), b"deep");
}

#[test]
fn duplicate_mkdir_rejected() {
    let mut fs = fresh(256, 64);
    fs.mkdir(b"/x").unwrap();
    assert_eq!(fs.mkdir(b"/x").err(), Some(FsError::Exists));
}

#[test]
fn persists_across_remount() {
    let mut fs = fresh(256, 64);
    fs.mkdir(b"/home").unwrap();
    fs.write_file(b"/home/note", b"survives reboot").unwrap();
    let dev = fs.into_device();
    let fs2 = Fs::mount(dev).unwrap();
    assert_eq!(fs2.read_file(b"/home/note").unwrap(), b"survives reboot");
    let home = fs2.list_dir(b"/home").unwrap();
    assert_eq!(home[0].name, b"note");
}

#[test]
fn rejects_oversize_file() {
    let mut fs = fresh(256, 64);
    let too_big = vec![0u8; MAX_FILE_SIZE as usize + 1];
    assert_eq!(fs.write_file(b"/big", &too_big).err(), Some(FsError::TooLarge));
    let max = vec![1u8; MAX_FILE_SIZE as usize];
    fs.write_file(b"/max", &max).unwrap();
    assert_eq!(fs.read_file(b"/max").unwrap().len(), MAX_FILE_SIZE as usize);
}

#[test]
fn block_reuse_after_shrink() {
    let mut fs = fresh(64, 32);
    fs.write_file(b"/a", &vec![1u8; 3 * BLOCK_SIZE]).unwrap();
    fs.write_file(b"/a", &vec![2u8; BLOCK_SIZE]).unwrap(); // shrink, frees 2
    fs.write_file(b"/b", &vec![3u8; 2 * BLOCK_SIZE]).unwrap(); // reuses freed
    assert_eq!(fs.read_file(b"/a").unwrap(), vec![2u8; BLOCK_SIZE]);
    assert_eq!(fs.read_file(b"/b").unwrap(), vec![3u8; 2 * BLOCK_SIZE]);
}

#[test]
fn remove_file_unlinks_and_reclaims() {
    let mut fs = fresh(64, 32);
    fs.mkdir(b"/etc").unwrap();
    fs.write_file(b"/etc/a", &vec![1u8; 2 * BLOCK_SIZE]).unwrap();
    fs.write_file(b"/etc/b", b"keep").unwrap();
    assert_eq!(fs.list_dir(b"/etc").unwrap().len(), 2);

    // Remove /etc/a: it disappears from the listing, the other stays.
    fs.remove_file(b"/etc/a").unwrap();
    let listing = fs.list_dir(b"/etc").unwrap();
    assert_eq!(listing.len(), 1);
    assert_eq!(listing[0].name, b"b");
    assert!(!fs.path_exists(b"/etc/a"));
    assert_eq!(fs.read_file(b"/etc/b").unwrap(), b"keep");

    // Removing a missing file -> NotFound.
    assert_eq!(fs.remove_file(b"/etc/a").err(), Some(FsError::NotFound));
    // Removing a directory -> WrongKind.
    assert_eq!(fs.remove_file(b"/etc").err(), Some(FsError::WrongKind));

    // The freed blocks/inode are reusable: write a new file that needs them.
    fs.write_file(b"/etc/c", &vec![7u8; 2 * BLOCK_SIZE]).unwrap();
    assert_eq!(fs.read_file(b"/etc/c").unwrap(), vec![7u8; 2 * BLOCK_SIZE]);
}

#[test]
fn remove_persists_across_remount() {
    let mut fs = fresh(128, 64);
    fs.write_file(b"/x", b"gone soon").unwrap();
    fs.write_file(b"/y", b"stays").unwrap();
    fs.remove_file(b"/x").unwrap();
    let dev = fs.into_device();
    let fs2 = Fs::mount(dev).unwrap();
    assert!(!fs2.path_exists(b"/x"));
    assert_eq!(fs2.read_file(b"/y").unwrap(), b"stays");
}

#[test]
fn fresh_volume_is_empty() {
    let fs = fresh(64, 16);
    assert!(fs.list_dir(b"/").unwrap().is_empty());
    assert!(fs.path_exists(b"/"));
}

#[test]
fn writing_one_file_leaves_another() {
    let mut fs = fresh(128, 16);
    fs.write_file(b"/a", b"first").unwrap();
    fs.mkdir(b"/d").unwrap();
    fs.write_file(b"/d/b", &vec![5u8; 3000]).unwrap();
    fs.write_file(b"/d/b", b"short").unwrap();
    assert_eq!(fs.read_file(b"/a").unwrap(), b"first");
    assert_eq!(fs.read_file(b"/d/b").unwrap(), b"short");
    fs.remove_file(b"/d/b").unwrap();
    assert_eq!(fs.read_file(b"/a").unwrap(), b"first");
}

#[test]
fn path_errors() {
    let mut fs = fresh(64, 16);
    fs.write_file(b"/f", b"x").unwrap();
    fs.mkdir(b"/d").unwrap();
    assert_eq!(fs.read_file(b"/missing").err(), Some(FsError::NotFound));
    assert_eq!(fs.read_file(b"/d").err(), Some(FsError::WrongKind));
    assert_eq!(fs.list_dir(b"/f").err(), Some(FsError::WrongKind));
    assert_eq!(fs.read_file(b"/f/inside").err(), Some(FsError::WrongKind));
    assert_eq!(fs.write_file(b"/no/such", b"x").err(), Some(FsError::NotFound));
    assert_eq!(fs.write_file(b"/d", b"x").err(), Some(FsError::WrongKind));
    assert_eq!(fs.write_file(b"/", b"x").err(), Some(FsError::NotFound));
    assert_eq!(
        fs.write_file(b"/a-name-of-more-than-23-bytes", b"x").err(),
        Some(FsError::TooLarge)
    );
    assert_eq!(fs.mkdir(b"/f").err(), Some(FsError::Exists));
}

#[test]
fn full_volume_refuses_and_recovers() {
    let mut fs = fresh(24, 16);
    let mut n = 0u32;
    let refused = loop {
        let name = format!("/f{n}");
        match fs.write_file(name.as_bytes(), &vec![1u8; BLOCK_SIZE]) {
            Ok(_) => n += 1,
            Err(e) => break e,
        }
    };
    assert_eq!(refused, FsError::NoSpace);
    assert!(n > 0);
    assert_eq!(fs.read_file(b"/f0").unwrap(), vec![1u8; BLOCK_SIZE]);
    fs.remove_file(b"/f0").unwrap();
    fs.write_file(b"/again", &vec![2u8; BLOCK_SIZE]).unwrap();
    assert_eq!(fs.read_file(b"/again").unwrap(), vec![2u8; BLOCK_SIZE]);
}

#[test]
fn read_only_device_refuses_changes() {
    let mut fs = fresh(64, 16);
    fs.write_file(b"/f", b"kept").unwrap();
    let mut dev = fs.into_device();
    dev.set_read_only(true);
    let mut fs = Fs::mount(dev).unwrap();
    assert_eq!(fs.read_file(b"/f").unwrap(), b"kept");
    assert!(matches!(fs.write_file(b"/g", b"x"), Err(FsError::Block(BlockError::ReadOnly))));
    assert!(matches!(fs.mkdir(b"/h"), Err(FsError::Block(BlockError::ReadOnly))));
    assert!(matches!(fs.write_file(b"/f", b"x"), Err(FsError::Block(BlockError::ReadOnly))));
    assert!(matches!(fs.write_file(b"/f", b""), Err(FsError::Block(BlockError::ReadOnly))));
    assert!(matches!(fs.remove_file(b"/f"), Err(FsError::Block(BlockError::ReadOnly))));
    // What fails before the first write fails as it would elsewhere.
    assert_eq!(fs.remove_file(b"/missing").err(), Some(FsError::NotFound));
    assert_eq!(fs.remove_file(b"/").err(), Some(FsError::WrongKind));
    assert_eq!(fs.mkdir(b"/f").err(), Some(FsError::Exists));
    assert_eq!(fs.mkdir(b"/no/such").err(), Some(FsError::NotFound));
    assert_eq!(
        fs.write_file(b"/f", &vec![0u8; MAX_FILE_SIZE as usize + 1]).err(),
        Some(FsError::TooLarge)
    );
    assert_eq!(fs.read_file(b"/f").unwrap(), b"kept");
    let mut dev = RamDisk::new(64);
    dev.set_read_only(true);
    assert!(matches!(Fs::format(dev, 16), Err(FsError::Block(BlockError::ReadOnly))));
}

#[test]
fn root_is_not_removed() {
    let mut fs = Fs::format(RamDisk::new(64), 32).unwrap();
    assert_eq!(fs.remove_file(b"/"), Err(FsError::WrongKind));
    assert_eq!(fs.remove_file(b""), Err(FsError::WrongKind));
    assert_eq!(fs.remove_file(b"//"), Err(FsError::WrongKind));
    assert!(fs.list_dir(b"/").unwrap().is_empty());
}

fn names(fs: &Fs<RamDisk>, dir: &[u8]) -> Vec<Vec<u8>> {
    fs.list_dir(dir).unwrap().into_iter().map(|e| e.name).collect()
}

#[test]
fn mkdir_answers_and_lists_in_order() {
    let mut fs = fresh(64, 32);
    assert_eq!(fs.mkdir(b"/").err(), Some(FsError::NotFound));
    assert_eq!(fs.mkdir(b"/a/b").err(), Some(FsError::NotFound));
    let a = fs.mkdir(b"/a").unwrap();
    let f = fs.write_file(b"/f", b"x").unwrap();
    let z = fs.mkdir(b"/a-name-of-just-23-bytes").unwrap();
    assert_eq!(fs.mkdir(b"/a").err(), Some(FsError::Exists));
    assert_eq!(fs.mkdir(b"/a-name-of-just-24-bytes!").err(), Some(FsError::TooLarge));
    assert_eq!(fs.mkdir(b"/f/below").err(), Some(FsError::WrongKind));
    assert!(fs.list_dir(b"/a").unwrap().is_empty());
    let root = fs.list_dir(b"/").unwrap();
    let seen: Vec<(u32, bool)> = root.iter().map(|e| (e.inode, e.is_dir)).collect();
    assert_eq!(seen, vec![(a, true), (f, false), (z, true)]);
    assert_eq!(
        names(&fs, b"/"),
        vec![b"a".to_vec(), b"f".to_vec(), b"a-name-of-just-23-bytes".to_vec()]
    );
}

#[test]
fn directory_takes_96_entries() {
    let mut fs = fresh(256, 128);
    for i in 0..96u32 {
        fs.mkdir(format!("/d{i}").as_bytes()).unwrap();
    }
    assert_eq!(fs.mkdir(b"/one-more").err(), Some(FsError::TooLarge));
    assert_eq!(fs.list_dir(b"/").unwrap().len(), 96);
}

#[test]
fn mkdir_without_inodes_or_blocks_is_refused() {
    // Two inodes: the root's and one more.
    let mut fs = fresh(16, 2);
    fs.mkdir(b"/only").unwrap();
    assert_eq!(fs.mkdir(b"/another").err(), Some(FsError::NoSpace));
    // One superblock, one bitmap block, one block of inodes: one block of data.
    let mut fs = fresh(4, 8);
    fs.mkdir(b"/a").unwrap();
    fs.mkdir(b"/b").unwrap();
    assert_eq!(fs.mkdir(b"/a/c").err(), Some(FsError::NoSpace));
    assert!(fs.list_dir(b"/a").unwrap().is_empty());
}

#[test]
fn written_file_is_listed_once() {
    let mut fs = fresh(64, 16);
    assert_eq!(fs.read_file(b"/f/below").err(), Some(FsError::NotFound));
    let ino = fs.write_file(b"/f", b"one").unwrap();
    assert_eq!(fs.read_file(b"/f/below").err(), Some(FsError::WrongKind));
    fs.write_file(b"/g", b"two").unwrap();
    assert_eq!(fs.write_file(b"/f", b"three"), Ok(ino));
    let root = fs.list_dir(b"/").unwrap();
    assert_eq!(root.len(), 2);
    assert_eq!((root[0].inode, root[0].is_dir, root[0].name.as_slice()), (ino, false, &b"f"[..]));
}

#[test]
fn failed_overwrite_keeps_the_old_contents() {
    // One superblock, one bitmap block, one block of inodes: three blocks of data.
    let mut fs = fresh(6, 8);
    fs.write_file(b"/f", b"old").unwrap();
    assert_eq!(fs.write_file(b"/f", &vec![1u8; 2000]).err(), Some(FsError::NoSpace));
    assert_eq!(fs.read_file(b"/f").unwrap(), b"old");
    assert_eq!(
        fs.write_file(b"/f", &vec![1u8; MAX_FILE_SIZE as usize + 1]).err(),
        Some(FsError::TooLarge)
    );
    assert_eq!(fs.read_file(b"/f").unwrap(), b"old");
    assert_eq!(names(&fs, b"/"), vec![b"f".to_vec()]);
}

#[test]
fn failed_first_write_leaves_an_empty_file() {
    let mut fs = fresh(64, 16);
    assert_eq!(
        fs.write_file(b"/f", &vec![1u8; MAX_FILE_SIZE as usize + 1]).err(),
        Some(FsError::TooLarge)
    );
    assert_eq!(fs.read_file(b"/f").unwrap(), b"");
}

#[test]
fn removal_keeps_the_order_of_the_others() {
    let mut fs = fresh(64, 16);
    for name in [&b"/a"[..], b"/b", b"/c", b"/d"] {
        fs.write_file(name, b"x").unwrap();
    }
    fs.remove_file(b"/b").unwrap();
    assert_eq!(names(&fs, b"/"), vec![b"a".to_vec(), b"c".to_vec(), b"d".to_vec()]);
}

#[test]
fn created_and_removed_leaves_no_trace() {
    // The same calls on two volumes, but for a file that comes and goes on one.
    let mut plain = fresh(10, 8);
    let mut other = fresh(10, 8);
    for fs in [&mut plain, &mut other] {
        fs.write_file(b"/keep", b"kept").unwrap();
    }
    other.write_file(b"/tmp", &vec![9u8; 1500]).unwrap();
    other.remove_file(b"/tmp").unwrap();
    assert_eq!(names(&other, b"/"), names(&plain, b"/"));
    for i in 0..8u32 {
        let path = format!("/n{i}");
        let data = vec![i as u8; 400 * (i as usize + 1)];
        assert_eq!(
            other.write_file(path.as_bytes(), &data),
            plain.write_file(path.as_bytes(), &data)
        );
        assert_eq!(other.read_file(path.as_bytes()), plain.read_file(path.as_bytes()));
        assert_eq!(other.mkdir(b"/dir"), plain.mkdir(b"/dir"));
        assert_eq!(other.list_dir(b"/"), plain.list_dir(b"/"));
    }
}

#[test]
fn too_small_device_is_not_formatted() {
    assert_eq!(Fs::format(RamDisk::new(2), 64).err(), Some(FsError::NoSpace));
}

#[test]
fn damaged_superblock_is_rejected() {
    let fs = fresh(64, 16);
    let mut dev = fs.into_device();
    let mut sector = vec![0u8; BLOCK_SIZE];
    dev.read_blocks(0, 1, &mut sector).unwrap();
    sector[0] ^= 0xff;
    dev.write_blocks(0, 1, &sector).unwrap();
    assert_eq!(Fs::mount(dev).err(), Some(FsError::BadSuperblock));
}

#[test]
fn paths_below_what_comes_and_goes() {
    let mut fs = fresh(64, 16);
    fs.write_file(b"/f", b"x").unwrap();
    assert_eq!(fs.read_file(b"/f/a/b").err(), Some(FsError::WrongKind));
    fs.remove_file(b"/f").unwrap();
    assert_eq!(fs.read_file(b"/f/a/b").err(), Some(FsError::NotFound));
    fs.mkdir(b"/f").unwrap();
    assert_eq!(fs.read_file(b"/f/a/b").err(), Some(FsError::NotFound));
}

// A disk whose read number `fault` from now on fails.
struct FlakyDisk {
    disk: RamDisk,
    fault: Cell<u32>,
}

impl BlockDevice for FlakyDisk {
    fn blocks(&self) -> Blocks {
        unreachable!()
    }
    fn sound(&self) -> bool {
        unreachable!()
    }
    fn write_protected(&self) -> bool {
        unreachable!()
    }
    fn block_count(&self) -> u64 {
        self.disk.block_count()
    }
    fn read_blocks(&self, lba: u64, count: u32, buf: &mut [u8]) -> Result<(), BlockError> {
        let left = self.fault.get();
        self.fault.set(left.saturating_sub(1));
        if left == 1 {
            return Err(BlockError::DeviceError);
        }
        self.disk.read_blocks(lba, count, buf)
    }
    fn write_blocks(&mut self, lba: u64, count: u32, buf: &[u8]) -> Result<(), BlockError> {
        self.disk.write_blocks(lba, count, buf)
    }
}

#[test]
fn hardware_faults_are_reported() {
    let broken = || FsError::Block(BlockError::DeviceError);
    let mut plain = fresh(64, 16);
    plain.write_file(b"/f", b"kept").unwrap();
    let disk = plain.into_device();
    // Mounting reads one block.
    let dev = FlakyDisk { disk, fault: Cell::new(2) };
    let mut fs = Fs::mount(dev).unwrap();
    assert_eq!(fs.read_file(b"/f").err(), Some(broken()));
    assert_eq!(fs.read_file(b"/f").unwrap(), b"kept");
    let mut dev = fs.into_device();
    dev.fault = Cell::new(2);
    fs = Fs::mount(dev).unwrap();
    assert_eq!(fs.write_file(b"/g", b"new").err(), Some(broken()));
    assert!(!fs.path_exists(b"/g"));
    // A fault while the name is looked up counts as the name being free.
    let mut dev = fs.into_device();
    dev.fault = Cell::new(2);
    fs = Fs::mount(dev).unwrap();
    fs.mkdir(b"/d").unwrap();
    assert!(fs.list_dir(b"/d").unwrap().is_empty());
    let dev = FlakyDisk { disk: RamDisk::new(8), fault: Cell::new(1) };
    assert_eq!(Fs::mount(dev).err(), Some(broken()));
}

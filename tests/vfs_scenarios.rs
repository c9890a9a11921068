use xv7_fs::types::{Direntory, FileMode, INodeType, Stat, O_APPEND, O_DIRECTORY, O_RDONLY, O_RDWR, O_WRONLY};
use xv7_fs::{Errno, FSType, File, RegisteredFS};

fn mounted() -> RegisteredFS {
    let mut fs = RegisteredFS::new();
    fs.register_fs(FSType::RAMFS);
    let (_rootfs, root_dentry) = fs.mount_fs(FSType::RAMFS, "");
    fs.set_root(&root_dentry);
    fs
}

fn lookup(fs: &mut RegisteredFS, path: &str) -> Result<(), Errno> {
    fs.vfs_lookup(path).map(|_| ())
}

fn mkdir(fs: &mut RegisteredFS, path: &str) -> Result<(), Errno> {
    fs.vfs_mkdir(path).map(|_| ())
}

fn create(fs: &mut RegisteredFS, path: &str) -> Result<(), Errno> {
    fs.vfs_create(path).map(|_| ())
}

fn open(fs: &mut RegisteredFS, path: &str, bits: u32) -> Result<File, Errno> {
    fs.vfs_open(path, FileMode::new(bits))
}

fn name_of(d: &Direntory) -> &[u8] {
    &d.name[0..d.name_len]
}

#[test]
fn main_test() {
    let mut fs = mounted();

    assert_eq!(lookup(&mut fs, "/"), Ok(()));
    assert_eq!(mkdir(&mut fs, "/"), Err(Errno::EEXIST));
    assert_eq!(mkdir(&mut fs, "/abc/test_dir"), Err(Errno::ENOENT));
    assert_eq!(mkdir(&mut fs, "/abc"), Ok(()));
    assert_eq!(mkdir(&mut fs, "/abc/test_dir"), Ok(()));
    assert_eq!(mkdir(&mut fs, "/abc/test_dir2"), Ok(()));
    assert_eq!(mkdir(&mut fs, "/abc/test_dir3"), Ok(()));

    assert_eq!(lookup(&mut fs, "/"), Ok(()));
    assert_eq!(lookup(&mut fs, "/abc"), Ok(()));
    assert_eq!(lookup(&mut fs, "/abc/test_dir"), Ok(()));
    assert_eq!(lookup(&mut fs, "/abc/test_dir2"), Ok(()));

    assert_eq!(lookup(&mut fs, "/test_file"), Err(Errno::ENOENT));
    assert_eq!(create(&mut fs, "/test_file"), Ok(()));
    assert_eq!(lookup(&mut fs, "/test_file"), Ok(()));
    assert_eq!(create(&mut fs, "/"), Err(Errno::EISDIR));
    assert_eq!(create(&mut fs, "/dir/"), Err(Errno::EISDIR));
    assert_eq!(create(&mut fs, "/test_file"), Err(Errno::EEXIST));
    assert_eq!(create(&mut fs, "/test_file_2"), Ok(()));

    let file = open(&mut fs, "/test_file", O_RDWR);
    assert!(file.is_ok());
    assert_eq!(fs.vfs_close(&file.unwrap()), Ok(()));

    assert_eq!(fs.vfs_unlink("/"), Err(Errno::EINVAL));
    assert_eq!(fs.vfs_unlink("/abc"), Err(Errno::ENOTEMPTY));
    assert_eq!(fs.vfs_unlink("/abc/"), Err(Errno::ENOTEMPTY));
    assert_eq!(fs.vfs_unlink("/abc/test_dir3"), Ok(()));
    assert_eq!(fs.vfs_unlink("/abc/test_dir3"), Err(Errno::ENOENT));
    assert_eq!(fs.vfs_unlink("/abc/test_dir3"), Err(Errno::ENOENT));
    let file = open(&mut fs, "/test_file_2", O_RDWR);
    assert!(file.is_ok());
    assert_eq!(fs.vfs_unlink("/test_file_2"), Err(Errno::EBUSY));
    assert_eq!(fs.vfs_close(&file.unwrap()), Ok(()));
    assert_eq!(fs.vfs_unlink("/test_file_2"), Ok(()));

    let data1: Vec<u8> = vec![1, 2, 3, 4, 5];
    let data2: Vec<u8> = vec![10, 9, 8, 7, 6, 5];
    let mut buf: Vec<u8> = vec![0; 20];
    assert_eq!(create(&mut fs, "/test_file_rw"), Ok(()));
    let file = open(&mut fs, "/test_file_rw", O_WRONLY);
    assert!(file.is_ok());
    let mut file = file.unwrap();
    assert_eq!(fs.vfs_write(&mut file, &data1), Ok(data1.len()));
    assert_eq!(fs.vfs_read(&mut file, &mut buf[0..data1.len()]), Err(Errno::EBADF));
    assert_eq!(fs.vfs_write(&mut file, &data2), Ok(data2.len()));
    assert_eq!(fs.vfs_close(&file), Ok(()));

    let file = open(&mut fs, "/test_file_rw", O_RDONLY);
    assert!(file.is_ok());
    let mut file = file.unwrap();
    assert_eq!(fs.vfs_write(&mut file, &data1), Err(Errno::EBADF));
    assert_eq!(fs.vfs_read(&mut file, &mut buf[0..data1.len()]), Ok(data1.len()));
    assert_eq!(buf[0..data1.len()], data1[..]);
    assert_eq!(fs.vfs_read(&mut file, &mut buf[0..data2.len()]), Ok(data2.len()));
    assert_eq!(buf[0..data2.len()], data2[..]);
    assert_eq!(fs.vfs_close(&file), Ok(()));

    let mut dir = [Direntory::default()];
    assert_eq!(mkdir(&mut fs, "/test_vfs_readdir"), Ok(()));
    assert_eq!(mkdir(&mut fs, "/test_vfs_readdir/test_dir"), Ok(()));
    assert_eq!(mkdir(&mut fs, "/test_vfs_readdir/test_dir2"), Ok(()));
    let file = open(&mut fs, "/test_vfs_readdir", O_RDWR);
    assert!(file.is_ok());
    let mut file = file.unwrap();
    assert_eq!(fs.vfs_readdir(&mut file, &mut dir), Ok(1));
    assert_eq!(name_of(&dir[0]), "test_dir".as_bytes());
    assert_eq!(fs.vfs_readdir(&mut file, &mut dir), Ok(1));
    assert_eq!(name_of(&dir[0]), "test_dir2".as_bytes());
    assert_eq!(fs.vfs_readdir(&mut file, &mut dir), Ok(0));
    assert_eq!(fs.vfs_close(&file), Ok(()));
}

#[test]
fn ramfs_test_test() {
    let mut fs = mounted();

    assert_eq!(lookup(&mut fs, "/"), Ok(()));
    assert_eq!(mkdir(&mut fs, "/"), Err(Errno::EEXIST));
    assert_eq!(mkdir(&mut fs, "/abc/test_dir"), Err(Errno::ENOENT));
    assert_eq!(mkdir(&mut fs, "/abc"), Ok(()));
    assert_eq!(mkdir(&mut fs, "/abc/test_dir"), Ok(()));
    assert_eq!(mkdir(&mut fs, "/abc/test_dir2"), Ok(()));
    assert_eq!(mkdir(&mut fs, "/abc/test_dir3"), Ok(()));

    assert_eq!(lookup(&mut fs, "/"), Ok(()));
    assert_eq!(lookup(&mut fs, "/abc"), Ok(()));
    assert_eq!(lookup(&mut fs, "/abc/test_dir"), Ok(()));
    assert_eq!(lookup(&mut fs, "/abc/test_dir2"), Ok(()));

    assert_eq!(lookup(&mut fs, "/test_file"), Err(Errno::ENOENT));
    assert_eq!(create(&mut fs, "/test_file"), Ok(()));
    assert_eq!(lookup(&mut fs, "/test_file"), Ok(()));
    assert_eq!(create(&mut fs, "/"), Err(Errno::EISDIR));
    assert_eq!(create(&mut fs, "/dir/"), Err(Errno::EISDIR));
    assert_eq!(create(&mut fs, "/test_file"), Err(Errno::EEXIST));
    assert_eq!(create(&mut fs, "/test_file_2"), Ok(()));

    let file = open(&mut fs, "/test_file", O_RDWR);
    assert!(file.is_ok());
    let file_2 = open(&mut fs, "/test_file_2", O_RDWR);
    assert!(file_2.is_ok());
    assert_eq!(fs.vfs_close(&file.unwrap()), Ok(()));
    assert_eq!(fs.vfs_close(&file_2.unwrap()), Ok(()));

    assert_eq!(fs.vfs_unlink("/"), Err(Errno::EINVAL));
    assert_eq!(fs.vfs_unlink("/abc"), Err(Errno::ENOTEMPTY));
    assert_eq!(fs.vfs_unlink("/abc/"), Err(Errno::ENOTEMPTY));
    assert_eq!(fs.vfs_unlink("/abc/test_dir3"), Ok(()));
    assert_eq!(fs.vfs_unlink("/abc/test_dir3"), Err(Errno::ENOENT));
    assert_eq!(fs.vfs_unlink("/abc/test_dir3"), Err(Errno::ENOENT));
    let file = open(&mut fs, "/test_file_2", O_RDWR);
    assert!(file.is_ok());
    assert_eq!(fs.vfs_unlink("/test_file_2"), Err(Errno::EBUSY));
    assert_eq!(fs.vfs_close(&file.unwrap()), Ok(()));
    assert_eq!(fs.vfs_unlink("/test_file_2"), Ok(()));

    let data1: Vec<u8> = vec![1, 2, 3, 4, 5];
    let data2: Vec<u8> = vec![10, 9, 8, 7, 6, 5];
    let mut buf: Vec<u8> = vec![0; 20];
    assert_eq!(create(&mut fs, "/test_file_rw"), Ok(()));
    let file = open(&mut fs, "/test_file_rw", O_WRONLY);
    assert!(file.is_ok());
    let mut file = file.unwrap();
    assert_eq!(fs.vfs_write(&mut file, &data1), Ok(data1.len()));
    assert_eq!(fs.vfs_read(&mut file, &mut buf[0..data1.len()]), Err(Errno::EBADF));
    assert_eq!(fs.vfs_write(&mut file, &data2), Ok(data2.len()));
    assert_eq!(fs.vfs_close(&file), Ok(()));

    let file = open(&mut fs, "/test_file_rw", O_RDONLY);
    assert!(file.is_ok());
    let mut file = file.unwrap();
    assert_eq!(fs.vfs_write(&mut file, &data1), Err(Errno::EBADF));
    assert_eq!(fs.vfs_read(&mut file, &mut buf[0..data1.len()]), Ok(data1.len()));
    assert_eq!(buf[0..data1.len()], data1[..]);
    assert_eq!(fs.vfs_read(&mut file, &mut buf[0..data2.len()]), Ok(data2.len()));
    assert_eq!(buf[0..data2.len()], data2[..]);
    assert_eq!(fs.vfs_close(&file), Ok(()));

    let mut stat = Stat::default();
    assert_eq!(fs.vfs_stat("/test_file_rw", &mut stat), Ok(()));

    let mut dirs = vec![Direntory::default(); 3];
    assert_eq!(mkdir(&mut fs, "/test_vfs_readdir"), Ok(()));
    assert_eq!(mkdir(&mut fs, "/test_vfs_readdir/test_dir"), Ok(()));
    assert_eq!(mkdir(&mut fs, "/test_vfs_readdir/test_dir2"), Ok(()));
    let file = open(&mut fs, "/test_vfs_readdir", O_RDWR);
    assert!(file.is_ok());
    let mut file = file.unwrap();
    assert_eq!(fs.vfs_readdir(&mut file, &mut dirs), Ok(2));
    assert_eq!(name_of(&dirs[0]), "test_dir".as_bytes());
    assert_eq!(fs.vfs_stat("/test_vfs_readdir/test_dir", &mut stat), Ok(()));
    assert_eq!(dirs[0].ino, stat.ino);
    assert_eq!(name_of(&dirs[1]), "test_dir2".as_bytes());
    assert_eq!(fs.vfs_stat("/test_vfs_readdir/test_dir2", &mut stat), Ok(()));
    assert_eq!(dirs[1].ino, stat.ino);
    assert_eq!(fs.vfs_readdir(&mut file, &mut dirs), Ok(0));
    assert_eq!(fs.vfs_close(&file), Ok(()));
}

#[test]
fn empty_fs_rules() {
    let mut fs = mounted();
    assert_eq!(lookup(&mut fs, "/"), Ok(()));
    assert_eq!(mkdir(&mut fs, "/"), Err(Errno::EEXIST));
    assert_eq!(mkdir(&mut fs, "/abc/test_dir"), Err(Errno::ENOENT));
    assert_eq!(mkdir(&mut fs, "/abc"), Ok(()));
    assert_eq!(mkdir(&mut fs, "/abc/test_dir"), Ok(()));
}

#[test]
fn create_rules() {
    let mut fs = mounted();
    assert_eq!(lookup(&mut fs, "/test_file"), Err(Errno::ENOENT));
    assert_eq!(create(&mut fs, "/test_file"), Ok(()));
    assert_eq!(create(&mut fs, "/"), Err(Errno::EISDIR));
    assert_eq!(create(&mut fs, "/dir/"), Err(Errno::EISDIR));
    assert_eq!(create(&mut fs, "/test_file"), Err(Errno::EEXIST));
}

#[test]
fn open_then_close() {
    let mut fs = mounted();
    assert_eq!(create(&mut fs, "/test_file"), Ok(()));
    let file = open(&mut fs, "/test_file", O_RDWR).unwrap();
    assert_eq!(file.pos, 0);
    assert_eq!(file.mode, FileMode::new(O_RDWR));
    assert_eq!(file.path, "/test_file");
    assert_eq!(fs.opened_files.len(), 1);
    assert_eq!(fs.vfs_close(&file), Ok(()));
    assert_eq!(fs.opened_files.len(), 0);
}

#[test]
fn unlink_rules() {
    let mut fs = mounted();
    assert_eq!(mkdir(&mut fs, "/abc"), Ok(()));
    assert_eq!(mkdir(&mut fs, "/abc/test_dir"), Ok(()));
    assert_eq!(mkdir(&mut fs, "/abc/test_dir2"), Ok(()));
    assert_eq!(mkdir(&mut fs, "/abc/test_dir3"), Ok(()));
    assert_eq!(fs.vfs_unlink("/"), Err(Errno::EINVAL));
    assert_eq!(fs.vfs_unlink("/abc"), Err(Errno::ENOTEMPTY));
    assert_eq!(fs.vfs_unlink("/abc/test_dir3"), Ok(()));
    assert_eq!(fs.vfs_unlink("/abc/test_dir3"), Err(Errno::ENOENT));
}

#[test]
fn busy_unlink() {
    let mut fs = mounted();
    assert_eq!(create(&mut fs, "/x"), Ok(()));
    let file = open(&mut fs, "/x", O_RDWR).unwrap();
    assert_eq!(fs.vfs_unlink("/x"), Err(Errno::EBUSY));
    assert_eq!(fs.vfs_close(&file), Ok(()));
    assert_eq!(fs.vfs_unlink("/x"), Ok(()));
}

#[test]
fn read_write_modes() {
    let mut fs = mounted();
    assert_eq!(create(&mut fs, "/rw"), Ok(()));
    let mut w = open(&mut fs, "/rw", O_WRONLY).unwrap();
    let mut buf: Vec<u8> = vec![0; 6];
    assert_eq!(fs.vfs_write(&mut w, &[1, 2, 3, 4, 5]), Ok(5));
    assert_eq!(fs.vfs_read(&mut w, &mut buf[0..5]), Err(Errno::EBADF));
    assert_eq!(fs.vfs_write(&mut w, &[10, 9, 8, 7, 6, 5]), Ok(6));
    assert_eq!(fs.vfs_close(&w), Ok(()));
    let mut r = open(&mut fs, "/rw", O_RDONLY).unwrap();
    assert_eq!(fs.vfs_write(&mut r, &[1]), Err(Errno::EBADF));
    assert_eq!(fs.vfs_read(&mut r, &mut buf[0..5]), Ok(5));
    assert_eq!(buf[0..5], [1, 2, 3, 4, 5]);
    assert_eq!(fs.vfs_read(&mut r, &mut buf[0..6]), Ok(6));
    assert_eq!(buf[0..6], [10, 9, 8, 7, 6, 5]);
}

#[test]
fn readdir_in_name_order() {
    let mut fs = mounted();
    assert_eq!(mkdir(&mut fs, "/d"), Ok(()));
    assert_eq!(mkdir(&mut fs, "/d/b"), Ok(()));
    assert_eq!(mkdir(&mut fs, "/d/a"), Ok(()));
    let mut dirfile = open(&mut fs, "/d", O_RDWR).unwrap();
    let mut dirs = vec![Direntory::default(); 4];
    assert_eq!(fs.vfs_readdir(&mut dirfile, &mut dirs), Ok(2));
    assert_eq!(name_of(&dirs[0]), b"a");
    assert_eq!(name_of(&dirs[1]), b"b");
    assert_eq!(dirs[0].name[1], 0);
    assert_eq!(dirs[0].off, 0);
    assert_eq!(dirs[1].off, 1);
    let mut stat = Stat::default();
    assert_eq!(fs.vfs_stat("/d/a", &mut stat), Ok(()));
    assert_eq!(dirs[0].ino, stat.ino);
    assert_eq!(fs.vfs_stat("/d/b", &mut stat), Ok(()));
    assert_eq!(dirs[1].ino, stat.ino);
    assert_eq!(fs.vfs_readdir(&mut dirfile, &mut dirs), Ok(0));
}

#[test]
fn readdir_orders_by_bytes_and_resumes() {
    let mut fs = mounted();
    assert_eq!(mkdir(&mut fs, "/d"), Ok(()));
    for name in ["/d/b", "/d/a", "/d/B", "/d/ab", "/d/aa"] {
        assert_eq!(create(&mut fs, name), Ok(()));
    }
    let mut f = open(&mut fs, "/d", O_RDONLY).unwrap();
    let mut two = vec![Direntory::default(); 2];
    let mut seen: Vec<Vec<u8>> = Vec::new();
    loop {
        let n = fs.vfs_readdir(&mut f, &mut two).unwrap();
        if n == 0 {
            break;
        }
        for d in &two[0..n] {
            seen.push(name_of(d).to_vec());
        }
    }
    let expected: Vec<Vec<u8>> = vec![b"B".to_vec(), b"a".to_vec(), b"aa".to_vec(), b"ab".to_vec(), b"b".to_vec()];
    assert_eq!(seen, expected);
}

#[test]
fn mkdir_then_lookup_is_directory() {
    let mut fs = mounted();
    assert_eq!(mkdir(&mut fs, "/p"), Ok(()));
    assert_eq!(mkdir(&mut fs, "/p/q"), Ok(()));
    let mut stat = Stat::default();
    assert_eq!(fs.vfs_stat("/p/q", &mut stat), Ok(()));
    assert_eq!(stat.mode, INodeType::IFDIR);
    assert_eq!(mkdir(&mut fs, "/p/q"), Err(Errno::EEXIST));
}

#[test]
fn create_unlink_lookup() {
    let mut fs = mounted();
    assert_eq!(create(&mut fs, "/f"), Ok(()));
    assert_eq!(fs.vfs_unlink("/f"), Ok(()));
    assert_eq!(lookup(&mut fs, "/f"), Err(Errno::ENOENT));
}

#[test]
fn round_trip_and_concatenation() {
    let mut fs = mounted();
    assert_eq!(create(&mut fs, "/f"), Ok(()));
    let mut w = open(&mut fs, "/f", O_RDWR).unwrap();
    assert_eq!(fs.vfs_write(&mut w, &[7, 8]), Ok(2));
    assert_eq!(fs.vfs_write(&mut w, &[9]), Ok(1));
    let mut r = open(&mut fs, "/f", O_RDONLY).unwrap();
    let mut buf = [0u8; 3];
    assert_eq!(fs.vfs_read(&mut r, &mut buf), Ok(3));
    assert_eq!(buf, [7, 8, 9]);
}

#[test]
fn emptied_directory_can_be_removed() {
    let mut fs = mounted();
    assert_eq!(mkdir(&mut fs, "/d"), Ok(()));
    assert_eq!(create(&mut fs, "/d/x"), Ok(()));
    assert_eq!(fs.vfs_unlink("/d"), Err(Errno::ENOTEMPTY));
    assert_eq!(fs.vfs_unlink("/d/x"), Ok(()));
    assert_eq!(fs.vfs_unlink("/d"), Ok(()));
    assert_eq!(lookup(&mut fs, "/d"), Err(Errno::ENOENT));
}

#[test]
fn read_at_end_returns_zero() {
    let mut fs = mounted();
    assert_eq!(create(&mut fs, "/f"), Ok(()));
    let mut f = open(&mut fs, "/f", O_RDWR).unwrap();
    let mut buf = [5u8; 4];
    assert_eq!(fs.vfs_read(&mut f, &mut buf), Ok(0));
    assert_eq!(buf, [5, 5, 5, 5]);
    assert_eq!(fs.vfs_write(&mut f, &[1, 2]), Ok(2));
    assert_eq!(fs.vfs_read(&mut f, &mut buf), Ok(0));
}

#[test]
fn short_read_leaves_rest_of_buffer() {
    let mut fs = mounted();
    assert_eq!(create(&mut fs, "/f"), Ok(()));
    let mut w = open(&mut fs, "/f", O_WRONLY).unwrap();
    assert_eq!(fs.vfs_write(&mut w, &[1, 2]), Ok(2));
    let mut r = open(&mut fs, "/f", O_RDONLY).unwrap();
    let mut buf = [9u8; 4];
    assert_eq!(fs.vfs_read(&mut r, &mut buf), Ok(2));
    assert_eq!(buf, [1, 2, 9, 9]);
    assert_eq!(r.pos, 2);
}

#[test]
fn append_writes_at_end() {
    let mut fs = mounted();
    assert_eq!(create(&mut fs, "/f"), Ok(()));
    let mut w = open(&mut fs, "/f", O_WRONLY).unwrap();
    assert_eq!(fs.vfs_write(&mut w, &[1, 2, 3]), Ok(3));
    let mut a = open(&mut fs, "/f", O_APPEND).unwrap();
    assert_eq!(fs.vfs_write(&mut a, &[4]), Ok(1));
    assert_eq!(a.pos, 4);
    let mut r = open(&mut fs, "/f", O_RDONLY).unwrap();
    let mut buf = [0u8; 8];
    assert_eq!(fs.vfs_read(&mut r, &mut buf), Ok(4));
    assert_eq!(buf[0..4], [1, 2, 3, 4]);
}

#[test]
fn write_past_end_fills_with_zeros() {
    let mut fs = mounted();
    assert_eq!(create(&mut fs, "/f"), Ok(()));
    let mut w = open(&mut fs, "/f", O_WRONLY).unwrap();
    w.pos = 3;
    assert_eq!(fs.vfs_write(&mut w, &[7]), Ok(1));
    let mut r = open(&mut fs, "/f", O_RDONLY).unwrap();
    let mut buf = [9u8; 8];
    assert_eq!(fs.vfs_read(&mut r, &mut buf), Ok(4));
    assert_eq!(buf[0..4], [0, 0, 0, 7]);
}

#[test]
fn mode_and_kind_errors() {
    let mut fs = mounted();
    assert_eq!(mkdir(&mut fs, "/d"), Ok(()));
    assert_eq!(create(&mut fs, "/f"), Ok(()));
    assert!(matches!(
        fs.vfs_open("/f", FileMode::new(O_RDONLY | O_DIRECTORY)),
        Err(Errno::ENOTDIR)
    ));
    assert!(fs.vfs_open("/d", FileMode::new(O_RDONLY | O_DIRECTORY)).is_ok());
    let mut d = open(&mut fs, "/d", O_RDWR).unwrap();
    let mut buf = [0u8; 2];
    assert_eq!(fs.vfs_read(&mut d, &mut buf), Err(Errno::EINVAL));
    assert_eq!(fs.vfs_write(&mut d, &buf), Err(Errno::EINVAL));
    let mut f = open(&mut fs, "/f", O_RDWR).unwrap();
    let mut dirs = vec![Direntory::default(); 1];
    assert_eq!(fs.vfs_readdir(&mut f, &mut dirs), Err(Errno::EINVAL));
    let mut dw = open(&mut fs, "/d", O_WRONLY).unwrap();
    assert_eq!(fs.vfs_readdir(&mut dw, &mut dirs), Err(Errno::EBADF));
}

#[test]
fn path_errors() {
    let mut fs = mounted();
    assert_eq!(create(&mut fs, "/f"), Ok(()));
    assert_eq!(lookup(&mut fs, "/f/g"), Err(Errno::ENOTDIR));
    assert_eq!(mkdir(&mut fs, "/f/g"), Err(Errno::ENOTDIR));
    assert_eq!(mkdir(&mut fs, "/f/g/h"), Err(Errno::ENOTDIR));
    assert_eq!(lookup(&mut fs, "relative"), Err(Errno::EINVAL));
    assert_eq!(mkdir(&mut fs, "relative"), Err(Errno::EINVAL));
    assert_eq!(create(&mut fs, "relative"), Err(Errno::EINVAL));
    assert_eq!(fs.vfs_unlink("relative"), Err(Errno::EINVAL));
    assert_eq!(lookup(&mut fs, ""), Err(Errno::EINVAL));
}

#[test]
fn empty_components_are_ignored() {
    let mut fs = mounted();
    assert_eq!(mkdir(&mut fs, "//a"), Ok(()));
    assert_eq!(mkdir(&mut fs, "/a//b/"), Ok(()));
    assert_eq!(lookup(&mut fs, "/a/b"), Ok(()));
    assert_eq!(lookup(&mut fs, "///a///b//"), Ok(()));
    assert_eq!(lookup(&mut fs, "//"), Ok(()));
}

#[test]
fn stat_reports_metadata() {
    let mut fs = mounted();
    let mut stat = Stat::default();
    assert_eq!(fs.vfs_stat("/", &mut stat), Ok(()));
    assert_eq!(stat.ino, 1);
    assert_eq!(stat.mode, INodeType::IFDIR);
    assert_eq!(stat.nlink, 0);
    assert_eq!(mkdir(&mut fs, "/a"), Ok(()));
    assert_eq!(fs.vfs_stat("/a", &mut stat), Ok(()));
    assert_eq!(stat.ino, 2);
    assert_eq!(stat.nlink, 1);
    assert_eq!(fs.vfs_stat("/", &mut stat), Ok(()));
    assert_eq!(stat.nlink, 1);
    assert_eq!(create(&mut fs, "/b"), Ok(()));
    assert_eq!(fs.vfs_stat("/b", &mut stat), Ok(()));
    assert_eq!(stat.ino, 3);
    assert_eq!(stat.mode, INodeType::IFREG);
    let before = stat;
    assert_eq!(fs.vfs_stat("/missing", &mut stat), Err(Errno::ENOENT));
    assert_eq!(stat, before);
}

#[test]
fn inode_numbers_are_not_reused() {
    let mut fs = mounted();
    assert_eq!(create(&mut fs, "/a"), Ok(()));
    assert_eq!(fs.vfs_unlink("/a"), Ok(()));
    assert_eq!(create(&mut fs, "/a"), Ok(()));
    let mut stat = Stat::default();
    assert_eq!(fs.vfs_stat("/a", &mut stat), Ok(()));
    assert_eq!(stat.ino, 3);
}

#[test]
fn open_file_survives_unlink_of_its_name() {
    let mut fs = mounted();
    assert_eq!(create(&mut fs, "/f"), Ok(()));
    let mut f = open(&mut fs, "/f", O_RDWR).unwrap();
    assert_eq!(fs.vfs_write(&mut f, &[3, 4]), Ok(2));
    assert_eq!(fs.vfs_close(&f), Ok(()));
    assert_eq!(fs.vfs_unlink("/f"), Ok(()));
    f.pos = 0;
    let mut buf = [0u8; 2];
    assert_eq!(fs.vfs_read(&mut f, &mut buf), Ok(2));
    assert_eq!(buf, [3, 4]);
}

#[test]
fn two_mounts_are_separate() {
    let mut fs = RegisteredFS::new();
    fs.register_fs(FSType::RAMFS);
    fs.register_fs(FSType::RAMFS);
    let (a, ra) = fs.mount_fs(FSType::RAMFS, "a");
    let (b, rb) = fs.mount_fs(FSType::RAMFS, "b");
    assert_ne!(a, b);
    fs.set_root(&ra);
    assert_eq!(mkdir(&mut fs, "/only_in_a"), Ok(()));
    fs.set_root(&rb);
    assert_eq!(fs.get_root(), rb);
    assert_eq!(lookup(&mut fs, "/only_in_a"), Err(Errno::ENOENT));
    fs.set_root(&ra);
    assert_eq!(lookup(&mut fs, "/only_in_a"), Ok(()));
}

#[test]
fn long_names_are_cut_to_the_buffer() {
    let mut fs = mounted();
    let long = format!("/{}", "n".repeat(300));
    assert_eq!(create(&mut fs, &long), Ok(()));
    let mut d = open(&mut fs, "/", O_RDONLY).unwrap();
    let mut dirs = vec![Direntory::default(); 1];
    assert_eq!(fs.vfs_readdir(&mut d, &mut dirs), Ok(1));
    assert_eq!(dirs[0].name_len, xv7_fs::types::NAME_MAX);
    assert!(dirs[0].name.iter().all(|b| *b == b'n'));
}

#[test]
fn file_mode_sets() {
    let m = FileMode::new(O_RDWR).union(FileMode::new(O_APPEND));
    assert!(m.contains(O_RDWR));
    assert!(m.contains(O_APPEND));
    assert!(!m.contains(O_RDONLY));
    assert!(FileMode::empty().contains(0));
    assert!(!FileMode::empty().contains(O_WRONLY));
}

use vcore::sched::task::{TaskInfo, TaskMode, TaskState};
use vcore::vfs::block::devfs::DevFs;
use vcore::vfs::block::{BlockDevice, RamDisk};
use vcore::vfs::fd::{FdKind, FdTable};
use vcore::vfs::handle::StaticFileHandle;
use vcore::vfs::memfs::MemFs;
use vcore::vfs::mount::{path_below, FileKind, FsKind, Vfs};
use vcore::vfs::path::{normalize_path, resolve_path};
use vcore::vfs::tasksfs::TasksFs;
use vcore::vfs::tmpfs::{name_before, TmpFs};
use vcore::vfs::types::{
    path_exists, seek_position, FileHandle, FileType, Filesystem, OpenFlags, SeekFrom, VfsError,
    O_APPEND, O_CREAT, O_DIRECTORY, O_EXCL, O_RDONLY, O_RDWR, O_TRUNC, O_WRONLY,
};

fn flags(bits: u32) -> OpenFlags {
    OpenFlags::from_bits(bits)
}

fn chars(s: &str) -> Vec<char> {
    s.chars().collect()
}

#[test]
fn normal_forms() {
    assert_eq!(normalize_path("/a/./b/../c//"), "/a/c");
    assert_eq!(normalize_path(""), "/");
    assert_eq!(normalize_path("/"), "/");
    assert_eq!(normalize_path("/.."), "/");
    assert_eq!(normalize_path("a/b"), "/a/b");
    assert_eq!(normalize_path("/a/b/../../../x"), "/x");
    assert_eq!(normalize_path("/a/.../b"), "/a/.../b");
    assert_eq!(normalize_path("///"), "/");
}

#[test]
fn normal_forms_have_no_empty_or_dot_names() {
    for p in ["/a//b", "a/./b/./", "/../..", "x/../y/../z", "/.hidden/..x/./"] {
        let n = normalize_path(p);
        assert!(n.starts_with('/'));
        assert!(!n.contains("//"));
        if n != "/" {
            for part in n[1..].split('/') {
                assert!(!part.is_empty() && part != "." && part != "..");
            }
        }
        assert_eq!(normalize_path(&n), n);
    }
}

#[test]
fn paths_resolve_against_the_working_directory() {
    assert_eq!(resolve_path("x/y", "/tmp"), "/tmp/x/y");
    assert_eq!(resolve_path("/x", "/tmp"), "/x");
    assert_eq!(resolve_path("../x", "/tmp/"), "/x");
    assert_eq!(resolve_path("", "/tmp"), "/tmp");
    assert_eq!(resolve_path(".", "/"), "/");
}

#[test]
fn resolving_twice_changes_nothing() {
    for (p, cwd) in [("a/../b", "/x/y"), ("/a/./b", "/"), ("..", "/one/two"), ("", "/")] {
        let once = resolve_path(p, cwd);
        assert_eq!(resolve_path(&once, cwd), once);
    }
}

#[test]
fn open_flags_read_as_bits() {
    assert_eq!(OpenFlags::empty().bits(), 0);
    assert_eq!(O_CREAT, 0o100);
    assert_eq!(O_EXCL, 0o200);
    assert_eq!(O_TRUNC, 0o1000);
    assert_eq!(O_APPEND, 0o2000);
    assert_eq!(O_DIRECTORY, 0o200000);
    let f = flags(O_WRONLY | O_CREAT);
    assert!(f.contains(flags(O_CREAT)));
    assert!(!f.contains(flags(O_TRUNC)));
    assert!(f.contains(flags(O_WRONLY)));
    assert_eq!(f.access_mode(), 1);
    assert!(f.is_writable());
    assert!(!f.is_readable());
    assert_eq!(flags(O_RDWR).union(flags(O_APPEND)).bits(), 2 | 0o2000);
    assert!(flags(O_RDWR).is_readable() && flags(O_RDWR).is_writable());
}

#[test]
fn read_only_is_contained_when_no_access_bit_is_set() {
    assert!(flags(O_CREAT).contains(flags(O_RDONLY)));
    assert!(flags(0).contains(flags(O_RDONLY)));
    assert!(!flags(O_WRONLY).contains(flags(O_RDONLY)));
    assert!(!flags(O_RDWR | O_CREAT).contains(flags(O_RDONLY)));
}

#[test]
fn seek_positions() {
    assert_eq!(seek_position(SeekFrom::Start(7), 3, 10), Ok(7));
    assert_eq!(seek_position(SeekFrom::Current(4), 3, 10), Ok(7));
    assert_eq!(seek_position(SeekFrom::Current(-3), 3, 10), Ok(0));
    assert_eq!(seek_position(SeekFrom::Current(-4), 3, 10), Err(VfsError::InvalidPath));
    assert_eq!(seek_position(SeekFrom::End(5), 3, 10), Ok(15));
    assert_eq!(seek_position(SeekFrom::End(-10), 3, 10), Ok(0));
    assert_eq!(seek_position(SeekFrom::End(isize::MIN), 3, 10), Err(VfsError::InvalidPath));
    assert_eq!(seek_position(SeekFrom::Start(usize::MAX), 0, 0), Err(VfsError::InvalidPath));
}

#[test]
fn descriptor_table_reserves_the_standard_streams() {
    let mut t: FdTable<u32> = FdTable::new();
    assert!(matches!(t.get(0), Ok(FdKind::Stdin)));
    assert!(matches!(t.get(1), Ok(FdKind::Stdout)));
    assert!(matches!(t.get(2), Ok(FdKind::Stderr)));
    assert!(matches!(t.get(3), Err(VfsError::InvalidFd)));
    assert!(matches!(t.get(64), Err(VfsError::InvalidFd)));
    assert_eq!(t.close(0), Err(VfsError::PermissionDenied));
    assert_eq!(t.close(2), Err(VfsError::PermissionDenied));
    assert_eq!(t.close(3), Err(VfsError::InvalidFd));
    assert_eq!(t.close(64), Err(VfsError::InvalidFd));
}

#[test]
fn sixty_one_files_fit_and_the_next_does_not() {
    let mut t: FdTable<u32> = FdTable::new();
    for i in 0..61 {
        assert_eq!(t.allocate(FdKind::File(i)), Ok(3 + i as usize));
    }
    assert_eq!(t.allocate(FdKind::File(99)), Err(VfsError::NoSpace));
    assert!(matches!(t.get(63), Ok(FdKind::File(60))));
}

#[test]
fn closed_descriptor_is_gone_and_its_slot_is_reused() {
    let mut t: FdTable<u32> = FdTable::new();
    t.allocate(FdKind::File(10)).unwrap();
    t.allocate(FdKind::File(11)).unwrap();
    t.allocate(FdKind::File(12)).unwrap();
    assert_eq!(t.close(4), Ok(()));
    assert!(matches!(t.get(4), Err(VfsError::InvalidFd)));
    assert_eq!(t.close(4), Err(VfsError::InvalidFd));
    assert_eq!(t.allocate(FdKind::File(13)), Ok(4));
    match t.get_mut(4) {
        Ok(FdKind::File(v)) => *v = 14,
        _ => panic!("descriptor 4 holds a file"),
    }
    assert!(matches!(t.take(4), Ok(FdKind::File(14))));
    t.put(4, FdKind::File(15));
    assert!(matches!(t.get(4), Ok(FdKind::File(15))));
}

#[test]
fn names_are_ordered_like_strings() {
    for (a, b) in [("a", "b"), ("a", "ab"), ("", "a"), ("Z", "a"), ("abc", "abd"), ("b", "a")] {
        assert_eq!(name_before(&chars(a), &chars(b)), a < b);
    }
    assert!(!name_before(&chars("same"), &chars("same")));
}

#[test]
fn tmpfs_write_close_open_read() {
    let mut fs = TmpFs::new();
    let mut h = fs.open("/x", flags(O_CREAT | O_WRONLY)).unwrap();
    assert_eq!(h.write(&mut fs, b"hi"), Ok(2));
    let mut buf = vec![0u8; 2];
    assert_eq!(h.read(&mut buf), Err(VfsError::PermissionDenied));
    drop(h);
    let mut h = fs.open("/x", flags(O_RDONLY)).unwrap();
    assert_eq!(h.read(&mut buf), Ok(2));
    assert_eq!(&buf, b"hi");
    assert_eq!(h.read(&mut buf), Ok(0));
    assert_eq!(h.write(&mut fs, b"no"), Err(VfsError::PermissionDenied));
    assert_eq!(fs.metadata("/x").unwrap().size, 2);
}

#[test]
fn tmpfs_append_and_truncate() {
    let mut fs = TmpFs::new();
    let mut h = fs.open("/log", flags(O_CREAT | O_WRONLY)).unwrap();
    h.write(&mut fs, b"one").unwrap();
    let mut h = fs.open("/log", flags(O_WRONLY | O_APPEND)).unwrap();
    assert_eq!(h.position, 3);
    h.seek(SeekFrom::Start(0)).unwrap();
    h.write(&mut fs, b"two").unwrap();
    let mut h = fs.open("/log", flags(O_RDWR)).unwrap();
    let mut buf = vec![0u8; 10];
    assert_eq!(h.read(&mut buf), Ok(6));
    assert_eq!(&buf[..6], b"onetwo");
    let mut h = fs.open("/log", flags(O_RDWR | O_TRUNC)).unwrap();
    assert_eq!(h.data.len(), 0);
    h.write(&mut fs, b"x").unwrap();
    assert_eq!(fs.metadata("/log").unwrap().size, 1);
}

#[test]
fn tmpfs_write_past_the_end_fills_with_zero() {
    let mut fs = TmpFs::new();
    let mut h = fs.open("/sparse", flags(O_CREAT | O_RDWR)).unwrap();
    h.seek(SeekFrom::Start(3)).unwrap();
    h.write(&mut fs, b"z").unwrap();
    assert_eq!(h.data, vec![0, 0, 0, b'z']);
    assert_eq!(h.metadata().unwrap().size, 4);
}

#[test]
fn tmpfs_directories() {
    let mut fs = TmpFs::new();
    assert_eq!(fs.mkdir("/a"), Ok(()));
    assert_eq!(fs.mkdir("/a/b"), Ok(()));
    assert_eq!(fs.mkdir("/a"), Err(VfsError::AlreadyExists));
    assert_eq!(fs.mkdir("/"), Err(VfsError::AlreadyExists));
    assert_eq!(fs.mkdir("/missing/c"), Err(VfsError::NotFound));
    assert_eq!(fs.rmdir("/a"), Err(VfsError::NotEmpty));
    assert_eq!(fs.rmdir("/a/b"), Ok(()));
    assert_eq!(fs.rmdir("/a"), Ok(()));
    assert_eq!(fs.rmdir("/a"), Err(VfsError::NotFound));
    assert_eq!(fs.rmdir("/"), Err(VfsError::PermissionDenied));
    assert_eq!(fs.remove("/"), Err(VfsError::PermissionDenied));
}

#[test]
fn tmpfs_lists_in_the_order_of_names() {
    let mut fs = TmpFs::new();
    fs.mkdir("/zeta").unwrap();
    fs.open("/alpha", flags(O_CREAT | O_WRONLY)).unwrap();
    fs.mkdir("/mid").unwrap();
    fs.open("/Beta", flags(O_CREAT | O_WRONLY)).unwrap();
    let list = fs.readdir("/").unwrap();
    let names: Vec<&str> = list.iter().map(|e| e.name.as_str()).collect();
    assert_eq!(names, ["Beta", "alpha", "mid", "zeta"]);
    assert_eq!(list[0].file_type, FileType::File);
    assert_eq!(list[2].file_type, FileType::Directory);
    assert_eq!(fs.metadata("/").unwrap().size, 4);
    assert_eq!(fs.metadata("/").unwrap().file_type, FileType::Directory);
}

#[test]
fn tmpfs_errors() {
    let mut fs = TmpFs::new();
    fs.mkdir("/d").unwrap();
    fs.open("/f", flags(O_CREAT | O_WRONLY)).unwrap();
    assert!(matches!(fs.open("/", flags(O_RDONLY)), Err(VfsError::IsADirectory)));
    assert!(matches!(fs.open("/d", flags(O_RDONLY)), Err(VfsError::IsADirectory)));
    assert!(matches!(fs.open("/none", flags(O_RDONLY)), Err(VfsError::NotFound)));
    assert!(matches!(fs.open("/f/x", flags(O_CREAT)), Err(VfsError::NotADirectory)));
    assert!(matches!(fs.readdir("/f"), Err(VfsError::NotADirectory)));
    assert!(matches!(fs.readdir("/none"), Err(VfsError::NotFound)));
    assert_eq!(fs.remove("/d"), Err(VfsError::IsADirectory));
    assert_eq!(fs.rmdir("/f"), Err(VfsError::NotADirectory));
    assert_eq!(fs.remove("/none"), Err(VfsError::NotFound));
    assert_eq!(fs.remove("/f"), Ok(()));
    assert!(!path_exists(&fs, "/f"));
    assert!(path_exists(&fs, "/d"));
}

#[test]
fn static_files_are_read_only() {
    let mut h = StaticFileHandle::new(b"abcdef".to_vec());
    let mut buf = vec![0u8; 4];
    assert_eq!(h.read(&mut buf), Ok(4));
    assert_eq!(&buf, b"abcd");
    assert_eq!(h.read(&mut buf), Ok(2));
    assert_eq!(&buf[..2], b"ef");
    assert_eq!(h.write(b"x"), Err(VfsError::PermissionDenied));
    assert_eq!(h.seek(SeekFrom::End(-6)), Ok(0));
    assert_eq!(h.metadata().unwrap().size, 6);
}

fn some_tasks() -> Vec<TaskInfo> {
    vec![
        TaskInfo { id: 0, state: TaskState::Ready, mode: TaskMode::Kernel, name: "idle".into() },
        TaskInfo { id: 7, state: TaskState::Running, mode: TaskMode::User, name: "shell".into() },
        TaskInfo { id: 12, state: TaskState::Dead, mode: TaskMode::User, name: "gone".into() },
    ]
}

#[test]
fn tasksfs_lists_the_live_tasks() {
    let mut fs = TasksFs::new();
    fs.set_tasks(some_tasks());
    let list = fs.readdir("/").unwrap();
    let names: Vec<&str> = list.iter().map(|e| e.name.as_str()).collect();
    assert_eq!(names, ["0", "7"]);
    assert!(list.iter().all(|e| e.file_type == FileType::Directory));
    let list = fs.readdir("/7").unwrap();
    let names: Vec<&str> = list.iter().map(|e| e.name.as_str()).collect();
    assert_eq!(names, ["status", "name"]);
    assert!(matches!(fs.readdir("/8"), Err(VfsError::NotFound)));
    assert!(matches!(fs.readdir("/x"), Err(VfsError::NotFound)));
    assert!(matches!(fs.readdir("/7/status"), Err(VfsError::NotADirectory)));
}

#[test]
fn tasksfs_status_file() {
    let mut fs = TasksFs::new();
    fs.set_tasks(some_tasks());
    let h = fs.open("/7/status", flags(O_RDONLY)).unwrap();
    assert_eq!(String::from_utf8(h.content).unwrap(), "pid: 7\nstate: running\nmode: user");
    let h = fs.open("/0/status", flags(O_RDONLY)).unwrap();
    assert_eq!(String::from_utf8(h.content).unwrap(), "pid: 0\nstate: ready\nmode: kernel");
    let h = fs.open("/12/name", flags(O_RDONLY)).unwrap();
    assert_eq!(h.content, b"gone");
    assert!(matches!(fs.open("/7", flags(O_RDONLY)), Err(VfsError::IsADirectory)));
    assert!(matches!(fs.open("/7/other", flags(O_RDONLY)), Err(VfsError::NotFound)));
    assert!(matches!(fs.open("/9/status", flags(O_RDONLY)), Err(VfsError::NotFound)));
    assert!(matches!(fs.open("/+7/status", flags(O_RDONLY)), Ok(_)));
    assert!(matches!(fs.open("/-7/status", flags(O_RDONLY)), Err(VfsError::NotFound)));
    assert!(matches!(
        fs.open("/99999999999999999999/status", flags(O_RDONLY)),
        Err(VfsError::NotFound)
    ));
}

#[test]
fn tasksfs_is_read_only() {
    let mut fs = TasksFs::new();
    fs.set_tasks(some_tasks());
    assert_eq!(fs.mkdir("/1"), Err(VfsError::PermissionDenied));
    assert_eq!(fs.remove("/7/status"), Err(VfsError::PermissionDenied));
    assert_eq!(fs.rmdir("/7"), Err(VfsError::PermissionDenied));
    assert_eq!(fs.metadata("/").unwrap().file_type, FileType::Directory);
    assert_eq!(fs.metadata("/7").unwrap().file_type, FileType::Directory);
    assert_eq!(fs.metadata("/7/name").unwrap().file_type, FileType::File);
    assert_eq!(fs.metadata("/7/else"), Err(VfsError::NotFound));
    assert_eq!(fs.metadata("/7/name/x"), Err(VfsError::NotFound));
}

#[test]
fn memfs_report() {
    let mut fs = MemFs::new();
    fs.set_figures(1024, 256, 1024);
    let h = fs.open("/", flags(O_RDONLY)).unwrap();
    assert_eq!(
        String::from_utf8(h.content).unwrap(),
        "total:  4 MB\nfree:   1 MB\nused:   3 MB\nheap:   1024 KB\npages:  256 free / 1024 total\n"
    );
    assert!(matches!(fs.open("/x", flags(O_RDONLY)), Err(VfsError::NotFound)));
    assert!(matches!(fs.readdir("/"), Err(VfsError::NotADirectory)));
    assert!(matches!(fs.readdir("/x"), Err(VfsError::NotFound)));
    assert_eq!(fs.metadata("/").unwrap().file_type, FileType::File);
    assert_eq!(fs.mkdir("/x"), Err(VfsError::PermissionDenied));
}

fn disk_with_pattern() -> RamDisk {
    let mut disk = RamDisk::new(8);
    for lba in 0..8u32 {
        let mut s = [0u8; 512];
        for (i, b) in s.iter_mut().enumerate() {
            *b = (lba as u8).wrapping_mul(31).wrapping_add(i as u8);
        }
        disk.write_sector(lba, &s).unwrap();
    }
    disk
}

#[test]
fn device_read_after_seek_gives_the_second_sector() {
    let mut fs: DevFs<RamDisk> = DevFs::new();
    fs.register_device("ata0", disk_with_pattern());
    let mut h = fs.open("/ata0", flags(O_RDWR)).unwrap();
    assert_eq!(fs.seek(&mut h, SeekFrom::Start(512)), Ok(512));
    let mut buf = vec![0u8; 512];
    assert_eq!(fs.read(&mut h, &mut buf), Ok(512));
    let mut want = [0u8; 512];
    disk_with_pattern().read_sector(1, &mut want).unwrap();
    assert_eq!(&buf[..], &want[..]);
    assert_eq!(h.position, 1024);
}

#[test]
fn device_reads_and_writes_stop_at_the_sector_end() {
    let mut fs: DevFs<RamDisk> = DevFs::new();
    fs.register_device("ata0", disk_with_pattern());
    let mut h = fs.open("ata0", flags(O_RDWR)).unwrap();
    fs.seek(&mut h, SeekFrom::Start(500)).unwrap();
    let mut buf = vec![0u8; 100];
    assert_eq!(fs.read(&mut h, &mut buf), Ok(12));
    fs.seek(&mut h, SeekFrom::Start(1030)).unwrap();
    assert_eq!(fs.write(&mut h, &[0xEE; 4]), Ok(4));
    let mut sector = [0u8; 512];
    fs.devices[0].1.read_sector(2, &mut sector).unwrap();
    assert_eq!(&sector[6..10], &[0xEE; 4]);
    assert_eq!(sector[5], 2u8.wrapping_mul(31).wrapping_add(5));
    assert_eq!(sector[10], 2u8.wrapping_mul(31).wrapping_add(10));
    assert_eq!(fs.seek(&mut h, SeekFrom::End(0)), Ok(8 * 512));
    assert_eq!(fs.handle_metadata(&h).unwrap().size, 8 * 512);
}

#[test]
fn devices_are_listed_by_name() {
    let mut fs: DevFs<RamDisk> = DevFs::new();
    fs.register_device("sdb", RamDisk::new(1));
    fs.register_device("ata0", RamDisk::new(2));
    fs.register_device("sda", RamDisk::new(3));
    fs.register_device("ata0", RamDisk::new(4));
    let list = fs.readdir("/").unwrap();
    let names: Vec<&str> = list.iter().map(|e| e.name.as_str()).collect();
    assert_eq!(names, ["ata0", "sda", "sdb"]);
    assert!(list.iter().all(|e| e.file_type == FileType::Device));
    assert_eq!(fs.metadata("/ata0").unwrap().size, 4 * 512);
    assert_eq!(fs.metadata("/").unwrap().file_type, FileType::Directory);
    assert!(matches!(fs.open("/", flags(O_RDONLY)), Err(VfsError::IsADirectory)));
    assert!(matches!(fs.open("/none", flags(O_RDONLY)), Err(VfsError::NotFound)));
    assert!(matches!(fs.readdir("/ata0"), Err(VfsError::NotADirectory)));
    assert_eq!(fs.mkdir("/x"), Err(VfsError::PermissionDenied));
    assert_eq!(fs.unregister_device("sda").unwrap().data.len(), 3);
    assert!(fs.unregister_device("sda").is_none());
}

#[test]
fn paths_below_a_mount_point() {
    let rest = |m: &str, p: &str| path_below(&chars(m), &chars(p)).map(|v| v.into_iter().collect::<String>());
    assert_eq!(rest("/", "/a/b"), Some("/a/b".to_string()));
    assert_eq!(rest("/tmp", "/tmp"), Some("/".to_string()));
    assert_eq!(rest("/tmp", "/tmp/x"), Some("/x".to_string()));
    assert_eq!(rest("/tmp", "/tmpx"), None);
    assert_eq!(rest("/tmp", "/other"), None);
    assert_eq!(rest("/tmp/long", "/tmp"), None);
}

fn mounts() -> Vfs<RamDisk> {
    let mut vfs: Vfs<RamDisk> = Vfs::new();
    vfs.mount("/", FsKind::Tmp(TmpFs::new())).unwrap();
    vfs.mount("/live/tasks", FsKind::Tasks(TasksFs::new())).unwrap();
    vfs.mount("/tmp", FsKind::Tmp(TmpFs::new())).unwrap();
    vfs.mount("/live", FsKind::Tmp(TmpFs::new())).unwrap();
    vfs
}

#[test]
fn mounts_are_kept_longest_first() {
    let vfs = mounts();
    let points: Vec<&str> = vfs.mounts.iter().map(|m| m.path.as_str()).collect();
    assert_eq!(points, ["/live/tasks", "/live", "/tmp", "/"]);
}

#[test]
fn the_deepest_mount_holds_a_path() {
    let vfs = mounts();
    assert_eq!(vfs.resolve("/live/tasks/7/status").unwrap(), (0, "/7/status".to_string()));
    assert_eq!(vfs.resolve("/live/tasks").unwrap(), (0, "/".to_string()));
    assert_eq!(vfs.resolve("/live/other").unwrap(), (1, "/other".to_string()));
    assert_eq!(vfs.resolve("/tmp/../live/./x").unwrap(), (1, "/x".to_string()));
    assert_eq!(vfs.resolve("/tmpfile").unwrap(), (3, "/tmpfile".to_string()));
    assert_eq!(vfs.resolve("/").unwrap(), (3, "/".to_string()));
}

#[test]
fn mounting_twice_is_refused_and_unmounting_frees_the_point() {
    let mut vfs = mounts();
    assert_eq!(vfs.mount("/tmp/", FsKind::Mem(MemFs::new())), Err(VfsError::AlreadyExists));
    assert_eq!(vfs.unmount("/tmp"), Ok(()));
    assert_eq!(vfs.unmount("/tmp"), Err(VfsError::NotFound));
    assert_eq!(vfs.resolve("/tmp/x").unwrap(), (2, "/tmp/x".to_string()));
    let mut none: Vfs<RamDisk> = Vfs::new();
    assert!(matches!(none.resolve("/x"), Err(VfsError::NotFound)));
    assert!(matches!(none.open("/x", flags(O_RDONLY)), Err(VfsError::NotFound)));
    assert_eq!(none.mkdir("/x"), Err(VfsError::NotFound));
    assert!(!none.path_exists("/"));
}

#[test]
fn files_are_written_through_the_mount_table() {
    let mut vfs = mounts();
    let mut f = vfs.open("/tmp/x", flags(O_CREAT | O_WRONLY)).unwrap();
    assert_eq!(f.mount, "/tmp");
    assert!(matches!(f.kind, FileKind::Tmp(_)));
    assert_eq!(vfs.write(&mut f, b"hi"), Ok(2));
    vfs.close(f).unwrap();
    let mut f = vfs.open("/tmp/x", flags(O_RDONLY)).unwrap();
    let mut buf = vec![0u8; 2];
    assert_eq!(vfs.read(&mut f, &mut buf), Ok(2));
    assert_eq!(&buf, b"hi");
    assert_eq!(vfs.file_metadata(&f).unwrap().size, 2);
    assert_eq!(vfs.seek(&mut f, SeekFrom::Start(1)), Ok(1));
    // The file lives in the filesystem at /tmp, not in the one at /.
    assert!(vfs.path_exists("/tmp/x"));
    assert_eq!(vfs.readdir("/").unwrap().len(), 0);
    assert_eq!(vfs.remove("/tmp/x"), Ok(()));
    assert!(!vfs.path_exists("/tmp/x"));
}

#[test]
fn directories_through_the_mount_table() {
    let mut vfs = mounts();
    assert_eq!(vfs.mkdir("/a"), Ok(()));
    assert_eq!(vfs.mkdir("/a/b"), Ok(()));
    assert_eq!(vfs.rmdir("/a"), Err(VfsError::NotEmpty));
    assert_eq!(vfs.rmdir("/a/b"), Ok(()));
    assert_eq!(vfs.rmdir("/a"), Ok(()));
    assert_eq!(vfs.mkdir("/live/tasks/1"), Err(VfsError::PermissionDenied));
    assert_eq!(vfs.metadata("/live/tasks").unwrap().file_type, FileType::Directory);
}

#[test]
fn named_sets_of_open_flags() {
    assert_eq!(OpenFlags::read().bits(), 0);
    assert_eq!(OpenFlags::write().bits(), 0o1 | 0o100 | 0o1000);
    assert_eq!(OpenFlags::read_write().bits(), 0o2);
    assert_eq!(OpenFlags::append().bits(), 0o1 | 0o100 | 0o2000);
    assert!(OpenFlags::write().is_writable() && !OpenFlags::write().is_readable());
    assert!(OpenFlags::read().is_readable() && !OpenFlags::read().is_writable());
    assert!(OpenFlags::read_write().is_readable() && OpenFlags::read_write().is_writable());
}

use vcore::cpu::syscall::{Kernel, FAILURE};
use vcore::cpu::ticks;
use vcore::drivers::ata::{
    data_wait, is_ready, load_word, read_command, store_word, write_command, DataWait,
    ATA_CMD_READ_SECTORS, ATA_CMD_WRITE_SECTORS,
};
use vcore::drivers::keyboard::handle_scancode;
use vcore::sched::task::STACK_SIZE;
use vcore::user::input::{
    build_path, command_of, edit_line, first_words, parse_args, status_summary, Command,
};
use vcore::user::syscalls;
use vcore::user::syscalls::{
    chdir, close, exit, getch, getcwd, getdents, mkdir, open, read, rmdir, to_signed, touch,
    unlink, DirEntryIter, DT_DIR, DT_FILE, O_CREAT, O_DIRECTORY, O_RDONLY, O_WRONLY,
};
use vcore::vfs::block::RamDisk;
use vcore::vfs::mount::FsKind;
use vcore::vfs::tmpfs::TmpFs;

fn machine() -> Kernel<RamDisk> {
    let mut k: Kernel<RamDisk> = Kernel::new();
    k.vfs.mount("/", FsKind::Tmp(TmpFs::new())).unwrap();
    k.vfs.mkdir("/tmp").unwrap();
    k
}

#[test]
fn a_line_is_cut_into_words() {
    let mut argv: [&[u8]; 16] = [&[]; 16];
    let argc = parse_args(b"ls  -l /tmp ", &mut argv);
    assert_eq!(argc, 3);
    assert_eq!(&argv[..3], &[&b"ls"[..], &b"-l"[..], &b"/tmp"[..]]);
    assert!(argv[3].is_empty());
    let mut two: [&[u8]; 2] = [&b"x"[..]; 2];
    assert_eq!(parse_args(b"a b c d", &mut two), 2);
    assert_eq!(two, [&b"a"[..], &b"b"[..]]);
    assert_eq!(parse_args(b"", &mut two), 0);
    assert_eq!(parse_args(b"    ", &mut two), 0);
    assert_eq!(two, [&b"a"[..], &b"b"[..]]);
    assert_eq!(parse_args(b"word", &mut two), 1);
    assert_eq!(two, [&b"word"[..], &b"b"[..]]);
    let mut none: [&[u8]; 0] = [];
    assert_eq!(parse_args(b"word", &mut none), 0);
    assert_eq!(first_words(b"a b c", 2), vec![&b"a"[..], &b"b"[..]]);
}

#[test]
fn keys_edit_the_line() {
    let mut line: Vec<u8> = Vec::new();
    let a = edit_line(&mut line, 4, b'a');
    assert_eq!((a.echo, a.done), (vec![b'a'], false));
    edit_line(&mut line, 4, b'b');
    edit_line(&mut line, 4, b'c');
    assert_eq!(line, b"abc");
    let full = edit_line(&mut line, 4, b'd');
    assert!(full.echo.is_empty());
    assert_eq!(line, b"abc");
    let back = edit_line(&mut line, 4, 8);
    assert_eq!(back.echo, vec![8, 32, 8]);
    assert_eq!(line, b"ab");
    let del = edit_line(&mut line, 4, 127);
    assert_eq!(del.echo, vec![8, 32, 8]);
    edit_line(&mut line, 4, 8);
    let none = edit_line(&mut line, 4, 8);
    assert!(none.echo.is_empty());
    assert!(line.is_empty());
    let ignored = edit_line(&mut line, 4, 7);
    assert!(ignored.echo.is_empty() && !ignored.done);
    edit_line(&mut line, 4, b'x');
    let enter = edit_line(&mut line, 4, 10);
    assert_eq!((enter.echo, enter.done), (vec![10], true));
    assert_eq!(line, b"x");
}

#[test]
fn the_status_path_of_a_task() {
    assert_eq!(build_path(b"12"), b"/live/tasks/12/status".to_vec());
    assert_eq!(build_path(b""), b"/live/tasks//status".to_vec());
}

#[test]
fn sector_commands() {
    let r = read_command(0x0123_4567);
    assert_eq!(r.drive_select, 0xE1);
    assert_eq!(r.sector_count, 1);
    assert_eq!((r.lba_low, r.lba_mid, r.lba_high), (0x67, 0x45, 0x23));
    assert_eq!(r.command, ATA_CMD_READ_SECTORS);
    let w = write_command(0xFFFF_FFFF);
    assert_eq!(w.drive_select, 0xEF);
    assert_eq!((w.lba_low, w.lba_mid, w.lba_high), (0xFF, 0xFF, 0xFF));
    assert_eq!(w.command, ATA_CMD_WRITE_SECTORS);
    assert_eq!(read_command(0).drive_select, 0xE0);
}

#[test]
fn drive_status() {
    assert!(is_ready(0x40));
    assert!(!is_ready(0x80));
    assert!(!is_ready(0xC8));
    assert_eq!(data_wait(0x08), DataWait::Ready);
    assert_eq!(data_wait(0x09), DataWait::Ready);
    assert_eq!(data_wait(0x01), DataWait::Failed);
    assert_eq!(data_wait(0x40), DataWait::Again);
}

#[test]
fn words_of_a_sector_are_stored_low_byte_first() {
    let mut buf = [0u8; 512];
    store_word(&mut buf, 1, 0xABCD);
    store_word(&mut buf, 255, 0x0102);
    assert_eq!((buf[2], buf[3]), (0xCD, 0xAB));
    assert_eq!((buf[510], buf[511]), (0x02, 0x01));
    assert_eq!(buf[0], 0);
    assert_eq!(load_word(&buf, 1), 0xABCD);
    assert_eq!(load_word(&buf, 255), 0x0102);
    assert_eq!(load_word(&buf, 0), 0);
}

#[test]
fn ticks_are_counted() {
    let mut k = machine();
    assert_eq!(ticks(&k), 0);
    k.timer_tick();
    k.timer_tick();
    k.timer_tick();
    assert_eq!(ticks(&k), 3);
}

#[test]
fn a_failure_is_minus_one() {
    assert_eq!(to_signed(FAILURE), -1);
    assert_eq!(to_signed(0), 0);
    assert_eq!(to_signed(63), 63);
}

#[test]
fn files_through_the_user_calls() {
    let mut k = machine();
    let fd = open(&mut k, b"/tmp/note", O_CREAT | O_WRONLY);
    assert_eq!(fd, 3);
    assert_eq!(syscalls::write(&mut k, 3, b"hello"), 5);
    assert_eq!(close(&mut k, 3), 0);
    assert_eq!(close(&mut k, 3), -1);
    assert_eq!(open(&mut k, b"/tmp/note", O_RDONLY), 3);
    let mut buf = vec![7u8; 8];
    assert_eq!(read(&mut k, 3, &mut buf), 5);
    assert_eq!(buf, b"hello\x07\x07\x07");
    assert_eq!(read(&mut k, 3, &mut buf), 0);
    assert_eq!(syscalls::write(&mut k, 3, b"x"), FAILURE);
    assert_eq!(close(&mut k, 3), 0);
    assert_eq!(read(&mut k, 3, &mut buf), FAILURE);
    assert_eq!(open(&mut k, b"/tmp/none", O_RDONLY), -1);
    assert_eq!(open(&mut k, &[0xFF, 0xFE], O_RDONLY), -1);
    assert_eq!(unlink(&mut k, b"/tmp/note"), 0);
    assert_eq!(unlink(&mut k, b"/tmp/note"), -1);
}

#[test]
fn the_terminal_through_the_user_calls() {
    let mut k = machine();
    assert_eq!(syscalls::write(&mut k, 1, b"out"), 3);
    assert_eq!(syscalls::write(&mut k, 2, b"err"), 3);
    assert_eq!(k.console, b"outerr");
    assert_eq!(syscalls::write(&mut k, 0, b"in"), FAILURE);
    assert_eq!(close(&mut k, 1), -1);
}

#[test]
fn directories_through_the_user_calls() {
    let mut k = machine();
    assert_eq!(mkdir(&mut k, b"/tmp/d"), 0);
    assert_eq!(mkdir(&mut k, b"/tmp/d"), -1);
    assert_eq!(touch(&mut k, b"/tmp/d/f"), 0);
    assert_eq!(touch(&mut k, b"/tmp/d/f"), 0);
    assert_eq!(touch(&mut k, b"/nowhere/f"), -1);
    assert_eq!(rmdir(&mut k, b"/tmp/d"), -1);

    let fd = open(&mut k, b"/tmp", O_DIRECTORY);
    assert_eq!(fd, 3);
    let mut buf = vec![0u8; 64];
    let n = getdents(&mut k, 3, &mut buf);
    assert_eq!(n, 4);
    let mut entries = DirEntryIter::new(&buf, n as usize);
    let first = entries.next().unwrap();
    assert_eq!((&first.name[..first.name_len], first.file_type), (&b"d"[..], DT_DIR));
    assert!(entries.next().is_none());
    assert_eq!(getdents(&mut k, 3, &mut buf), 0);
    assert_eq!(close(&mut k, 3), 0);
    assert_eq!(getdents(&mut k, 3, &mut buf), -1);

    assert_eq!(open(&mut k, b"/tmp/d", O_DIRECTORY), 3);
    let n = getdents(&mut k, 3, &mut buf);
    let mut entries = DirEntryIter::new(&buf, n as usize);
    let file = entries.next().unwrap();
    assert_eq!((&file.name[..file.name_len], file.file_type), (&b"f"[..], DT_FILE));
    assert_eq!(close(&mut k, 3), 0);

    assert_eq!(unlink(&mut k, b"/tmp/d/f"), 0);
    assert_eq!(rmdir(&mut k, b"/tmp/d"), 0);
    assert_eq!(rmdir(&mut k, b"/tmp/d"), -1);
}

#[test]
fn the_working_directory_through_the_user_calls() {
    let mut k = machine();
    let mut buf = vec![0u8; 16];
    assert_eq!(getcwd(&mut k, &mut buf), 1);
    assert_eq!(buf[0], b'/');
    assert_eq!(chdir(&mut k, b"/tmp"), 0);
    assert_eq!(getcwd(&mut k, &mut buf), 4);
    assert_eq!(&buf[..4], b"/tmp");
    assert_eq!(chdir(&mut k, b"/missing"), -1);
    assert_eq!(touch(&mut k, b"here"), 0);
    assert_eq!(open(&mut k, b"/tmp/here", O_RDONLY), 3);
    assert_eq!(chdir(&mut k, b"here"), -1);
    assert_eq!(chdir(&mut k, b".."), 0);
    let mut small = vec![0u8; 0];
    assert_eq!(getcwd(&mut k, &mut small), 0);
    assert_eq!(getcwd(&mut k, &mut buf), 1);
}

#[test]
fn a_key_is_read_when_there_is_one() {
    let mut k = machine();
    assert_eq!(getch(&mut k), 0);
    handle_scancode(&mut k.keyboard, 0x1C);
    handle_scancode(&mut k.keyboard, 0x32);
    assert_eq!(getch(&mut k), b'a');
    assert_eq!(getch(&mut k), b'b');
    assert_eq!(getch(&mut k), 0);
}

#[test]
fn exit_gives_the_switch_to_the_next_task() {
    let mut k = machine();
    assert!(exit(&mut k, 0).is_none());
    let mut k = machine();
    let stack = vec![0u8; STACK_SIZE];
    let id = k.sched.spawn(0x1000, 0x2000, stack, 0x10_0000);
    let switch = exit(&mut k, 0).unwrap();
    assert_eq!(k.sched.tasks[k.sched.current].id, id);
    assert_eq!(switch.new_sp, k.sched.tasks[k.sched.current].stack_ptr);
}

#[test]
fn a_status_file_becomes_one_line() {
    let shown = status_summary(b"pid: 3\nname: shell\nstate: running\nmode: user\n");
    assert_eq!(shown, b"3\trunning\t\tuser\n".to_vec());
    assert_eq!(status_summary(b""), b"?\t?\t\t?\n".to_vec());
    assert_eq!(status_summary(b"mode: kernel"), b"?\t?\t\tkernel\n".to_vec());
    assert_eq!(status_summary(b"pid: 1\npid: 2\n\nstate: "), b"2\t\t\t?\n".to_vec());
    assert_eq!(status_summary(b" pid: 1\nstate:ready\n"), b"?\t?\t\t?\n".to_vec());
}

#[test]
fn words_name_commands() {
    assert_eq!(command_of(b"help"), Command::Help);
    assert_eq!(command_of(b"echo"), Command::Echo);
    assert_eq!(command_of(b"ls"), Command::Ls);
    assert_eq!(command_of(b"cat"), Command::Cat);
    assert_eq!(command_of(b"write"), Command::Write);
    assert_eq!(command_of(b"cd"), Command::Cd);
    assert_eq!(command_of(b"pwd"), Command::Pwd);
    assert_eq!(command_of(b"ps"), Command::Ps);
    assert_eq!(command_of(b"touch"), Command::Touch);
    assert_eq!(command_of(b"mkdir"), Command::Mkdir);
    assert_eq!(command_of(b"rm"), Command::Rm);
    assert_eq!(command_of(b"rmdir"), Command::Rmdir);
    assert_eq!(command_of(b"exit"), Command::Exit);
    assert_eq!(command_of(b"Help"), Command::Unknown);
    assert_eq!(command_of(b"l"), Command::Unknown);
    assert_eq!(command_of(b"lss"), Command::Unknown);
    assert_eq!(command_of(b""), Command::Unknown);
}

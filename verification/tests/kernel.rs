use vcore::cpu::syscall::{
    encode_dirents, input_span, output_address, syscall_handler, Kernel, FAILURE,
};
use vcore::drivers::keyboard::{
    handle_scancode, has_input, read_char, read_line, scancode_to_ascii, Keyboard,
};
use vcore::elf::{load, parse_header, plan_segment, Elf64ProgramHeader};
use vcore::mem::heap;
use vcore::mem::pmm::{allocate, free, free_pages, plan_bitmap, BitmapAllocator, MemoryRegion};
use vcore::mem::vmm::{
    chunk_at, direct_phys, heap_page_flags, phys_to_virt, user_page_flags, AddressSpace,
    PmmFrameAllocator,
};
use vcore::sched::task::{Task, TaskMode, TaskState, STACK_SIZE};
use vcore::sched::Scheduler;
use vcore::user::syscalls::{
    DirEntryIter, SYS_CHDIR, SYS_CLOSE, SYS_EXIT, SYS_GETCWD, SYS_GETDENTS, SYS_MKDIR, SYS_OPEN,
    SYS_READ, SYS_RMDIR, SYS_UNLINK, SYS_WRITE,
};
use vcore::vfs::block::partition::{
    find_partition, first_partition, identify_gpt_type, parse_gpt, parse_mbr, parse_partitions,
    PartitionType,
};
use vcore::vfs::block::{BlockDevice, RamDisk};
use vcore::vfs::mount::FsKind;
use vcore::vfs::tasksfs::TasksFs;
use vcore::vfs::tmpfs::TmpFs;
use vcore::vfs::types::{DirEntry, FileType, O_CREAT, O_DIRECTORY, O_RDONLY, O_WRONLY};

fn region(base: u64, length: u64, usable: bool) -> MemoryRegion {
    MemoryRegion { base, length, usable }
}

fn small_allocator() -> BitmapAllocator {
    let map = [
        region(0, 0x1000, false),
        region(0x1000, 0x8000, true),
        region(0x9000, 0x1000, false),
        region(0xA000, 0x6000, true),
    ];
    let plan = plan_bitmap(&map).unwrap();
    assert_eq!(plan.total_pages, 16);
    assert_eq!(plan.bitmap_size, 2);
    assert_eq!(plan.bitmap_addr, 0x1000);
    BitmapAllocator::init(&map, &plan, vec![0u8; plan.bitmap_size])
}

#[test]
fn allocator_frees_usable_pages_but_not_its_own() {
    let a = small_allocator();
    // Pages 1..=8 and 10..=15 are usable; page 1 holds the bitmap.
    assert_eq!(a.free_pages, 13);
    assert!(a.test_bit(0));
    assert!(a.test_bit(1));
    assert!(!a.test_bit(2));
    assert!(a.test_bit(9));
    assert!(!a.test_bit(15));
}

#[test]
fn unaligned_regions_free_only_whole_pages() {
    let map = [region(0x800, 0x2000, true)];
    let plan = plan_bitmap(&map).unwrap();
    assert_eq!(plan.total_pages, 3);
    let a = BitmapAllocator::init(&map, &plan, vec![0u8; plan.bitmap_size]);
    // Only page 1 lies wholly in the region; page 0 and page 1 hold the bitmap.
    assert!(a.test_bit(0));
    assert!(a.test_bit(2));
    assert_eq!(a.free_pages, if a.test_bit(1) { 0 } else { 1 });
}

#[test]
fn there_is_no_plan_without_room_for_the_bitmap() {
    assert!(plan_bitmap(&[region(0, 0x10000, false)]).is_none());
    assert!(plan_bitmap(&[region(u64::MAX, 2, true)]).is_none());
}

#[test]
fn frames_are_taken_lowest_first_and_never_twice() {
    let mut a = small_allocator();
    let mut seen = Vec::new();
    while let Some(addr) = a.alloc_page() {
        assert_eq!(addr % 4096, 0);
        assert!(!seen.contains(&addr));
        if let Some(&last) = seen.last() {
            assert!(addr > last);
        }
        seen.push(addr);
    }
    assert_eq!(seen.len(), 13);
    assert_eq!(seen[0], 0x2000);
    assert_eq!(a.free_pages, 0);
    assert_eq!(a.alloc_page(), None);
}

#[test]
fn a_freed_frame_can_be_taken_again() {
    let mut pmm = Some(small_allocator());
    let mut taken = Vec::new();
    while let Some(addr) = allocate(&mut pmm) {
        taken.push(addr);
    }
    assert_eq!(free_pages(&pmm), 0);
    free(&mut pmm, taken[5]);
    assert_eq!(free_pages(&pmm), 1);
    assert_eq!(allocate(&mut pmm), Some(taken[5]));
    // Freeing twice, or freeing what is out of range, changes nothing.
    free(&mut pmm, taken[5]);
    free(&mut pmm, taken[5]);
    free(&mut pmm, 0x100_0000);
    assert_eq!(free_pages(&pmm), 1);
    let mut none: Option<BitmapAllocator> = None;
    assert_eq!(allocate(&mut none), None);
    assert_eq!(free_pages(&none), 0);
}

#[test]
fn frame_allocator_hands_out_frames() {
    let mut pmm = Some(small_allocator());
    let mut frames = PmmFrameAllocator;
    assert_eq!(frames.allocate_frame(&mut pmm), Some(0x2000));
    assert_eq!(frames.allocate_frame(&mut None), None);
    let free = free_pages(&pmm);
    assert_eq!(frames.allocate_frame(&mut pmm), Some(0x3000));
    assert_eq!(free_pages(&pmm), free - 1);
    while frames.allocate_frame(&mut pmm).is_some() {}
    assert_eq!(free_pages(&pmm), 0);
    assert_eq!(frames.allocate_frame(&mut pmm), None);
}

#[test]
fn page_flags_and_addresses() {
    assert_eq!(user_page_flags(true), 0b111);
    assert_eq!(user_page_flags(false), 0b111 | (1 << 63));
    assert_eq!(heap_page_flags(), 0b11 | (1 << 63));
    assert_eq!(phys_to_virt(0x1000, 0xFFFF_8000_0000_0000), Some(0xFFFF_8000_0000_1000));
    assert_eq!(phys_to_virt(0x8000_0000_0000, 0), None);
    assert_eq!(phys_to_virt(u64::MAX, 1), None);
    assert_eq!(direct_phys(0xFFFF_8000_0000_1000, 0xFFFF_8000_0000_0000), Some(0x1000));
    assert_eq!(direct_phys(0x1000, 0xFFFF_8000_0000_0000), None);
    assert_eq!(AddressSpace::new(0x5000).cr3_value(), 0x5000);
    assert!(AddressSpace::is_shared_entry(256) && AddressSpace::is_shared_entry(511));
    assert!(!AddressSpace::is_shared_entry(255) && !AddressSpace::is_shared_entry(512));
    assert_eq!(heap::size(), 1024);
    assert_eq!(heap::page_count(), 256);
    assert_eq!(heap::page_address(2), 0xFFFF_8080_0000_2000);
}

#[test]
fn ranges_are_cut_at_page_ends() {
    let c = chunk_at(0x1FF0, 0, 100).unwrap();
    assert_eq!((c.virt, c.page_offset, c.len), (0x1FF0, 0xFF0, 16));
    let c = chunk_at(0x1FF0, 16, 100).unwrap();
    assert_eq!((c.virt, c.page_offset, c.len), (0x2000, 0, 84));
    assert!(chunk_at(0x7FFF_FFFF_FFF0, 16, 100).is_none());
}

fn stack() -> Vec<u8> {
    vec![0u8; STACK_SIZE]
}

fn word(stack: &[u8], at: usize) -> u64 {
    u64::from_le_bytes(stack[at..at + 8].try_into().unwrap())
}

#[test]
fn new_task_frame() {
    let base = 0x10_0008u64;
    let t = Task::new(3, 0xAAAA, 0xBBBB, stack(), base);
    assert_eq!(t.id, 3);
    assert_eq!(t.state, TaskState::Ready);
    assert_eq!(t.mode, TaskMode::Kernel);
    let top = (base + STACK_SIZE as u64) & !0xF;
    assert_eq!(t.stack_ptr, top - 56);
    let at = (t.stack_ptr - base) as usize;
    assert_eq!(word(&t.stack, at), 0xAAAA);
    for k in 1..6 {
        assert_eq!(word(&t.stack, at + 8 * k), 0);
    }
    assert_eq!(word(&t.stack, at + 48), 0xBBBB);
    assert_eq!(t.cwd, "/");
}

#[test]
fn new_user_task_frame() {
    let base = 0x20_0000u64;
    let space = Some(AddressSpace::new(0x7000));
    let t = Task::new_user(4, 0x40_0000, 0x7FFF_FFFF_0FF8, 0xCCCC, stack(), base, space);
    assert_eq!(t.mode, TaskMode::User);
    assert_eq!(t.user_entry, 0x40_0000);
    let at = (t.stack_ptr - base) as usize;
    assert_eq!(at, STACK_SIZE - 56);
    assert_eq!(word(&t.stack, at), 0x40_0000);
    assert_eq!(word(&t.stack, at + 8), 0x7FFF_FFFF_0FF8);
    assert_eq!(word(&t.stack, at + 48), 0xCCCC);
    assert_eq!(t.address_space, space);
}

fn running(s: &Scheduler) -> usize {
    s.tasks.iter().filter(|t| t.state == TaskState::Running).count()
}

fn three_tasks() -> Scheduler {
    let mut s = Scheduler::init();
    assert_eq!(s.spawn(0x1000, 0x2000, stack(), 0x10_0000), 1);
    assert_eq!(s.spawn_user(0x40_0000, 0x7000, 0x2000, stack(), 0x20_0000, Some(AddressSpace::new(0x9000))), 2);
    s
}

#[test]
fn tasks_run_in_turn() {
    let mut s = three_tasks();
    assert_eq!(running(&s), 1);
    assert_eq!(s.next_ready(), Some(1));
    let sw = s.schedule(1).unwrap();
    assert_eq!((sw.old_index, sw.new_index, sw.new_cr3), (0, 1, 0));
    assert_eq!(sw.new_sp, s.tasks[1].stack_ptr);
    assert_eq!(s.current, 1);
    assert_eq!(s.tasks[0].state, TaskState::Ready);
    assert_eq!(running(&s), 1);
    let sw = s.schedule(2).unwrap();
    assert_eq!((sw.old_index, sw.new_index, sw.new_cr3), (1, 2, 0x9000));
    let sw = s.yield_now(3).unwrap();
    assert_eq!((sw.old_index, sw.new_index), (2, 0));
    assert_eq!(running(&s), 1);
}

#[test]
fn a_lone_task_keeps_running() {
    let mut s = Scheduler::init();
    assert_eq!(s.next_ready(), None);
    assert_eq!(s.schedule(5), None);
    assert_eq!(s.tasks[0].state, TaskState::Running);
    assert_eq!(Scheduler::new().schedule(1), None);
}

#[test]
fn a_sleeper_wakes_no_sooner_than_asked() {
    let mut s = three_tasks();
    s.schedule(10);
    assert_eq!(s.current, 1);
    s.sleep(5, 10);
    assert_eq!(s.tasks[1].state, TaskState::Sleeping);
    assert_eq!(s.tasks[1].wake_at, Some(15));
    let sw = s.schedule(10).unwrap();
    assert_eq!(sw.new_index, 2);
    for now in 11..15 {
        s.schedule(now);
        assert_eq!(s.tasks[1].state, TaskState::Sleeping);
        assert!(s.current != 1);
    }
    s.schedule(15);
    assert!(s.tasks[1].state == TaskState::Ready || s.tasks[1].state == TaskState::Running);
    assert_eq!(s.tasks[1].wake_at, None);
    assert!(running(&s) == 1);
}

#[test]
fn when_every_other_task_sleeps_the_sleeper_wakes_into_itself() {
    let mut s = Scheduler::init();
    s.sleep(2, 0);
    assert_eq!(s.schedule(1), None);
    assert_eq!(running(&s), 0);
    let sw = s.schedule(2).unwrap();
    assert_eq!((sw.old_index, sw.new_index), (0, 0));
    assert_eq!(running(&s), 1);
}

#[test]
fn the_dead_are_reaped_but_not_while_they_run() {
    let mut s = three_tasks();
    s.schedule(1);
    s.exit();
    assert_eq!(s.tasks[1].state, TaskState::Dead);
    s.reap_dead();
    assert_eq!(s.tasks.len(), 3);
    let sw = s.schedule(2).unwrap();
    assert_eq!(sw.new_index, 2);
    assert_eq!(s.tasks.len(), 3);
    let sw = s.schedule(3).unwrap();
    // The dead task was reaped, so the task it switched to moved down.
    assert_eq!((sw.old_index, sw.new_index), (1, 0));
    assert_eq!(s.tasks.len(), 2);
    let ids: Vec<u64> = s.tasks.iter().map(|t| t.id).collect();
    assert_eq!(ids, [0, 2]);
    assert_eq!(running(&s), 1);
}

#[test]
fn working_directory_and_snapshot() {
    let mut s = three_tasks();
    assert_eq!(s.get_cwd().unwrap(), "/");
    s.set_cwd("/tmp".to_string()).unwrap();
    assert_eq!(s.get_cwd().unwrap(), "/tmp");
    let snap = s.snapshot();
    assert_eq!(snap.len(), 3);
    assert_eq!((snap[2].id, snap[2].state, snap[2].mode), (2, TaskState::Ready, TaskMode::User));
    assert!(Scheduler::new().get_cwd().is_none());
    assert!(Scheduler::new().set_cwd("/".to_string()).is_err());
}

fn keys(kb: &mut Keyboard, codes: &[u8]) {
    for &c in codes {
        handle_scancode(kb, c);
    }
}

#[test]
fn keys_become_characters() {
    assert_eq!(scancode_to_ascii(0x1C, false, false), Some(b'a'));
    assert_eq!(scancode_to_ascii(0x1C, true, false), Some(b'A'));
    assert_eq!(scancode_to_ascii(0x1C, false, true), Some(b'A'));
    assert_eq!(scancode_to_ascii(0x1C, true, true), Some(b'a'));
    assert_eq!(scancode_to_ascii(0x16, false, true), Some(b'1'));
    assert_eq!(scancode_to_ascii(0x16, true, true), Some(b'!'));
    assert_eq!(scancode_to_ascii(0x5A, false, false), Some(b'\n'));
    assert_eq!(scancode_to_ascii(0x29, true, false), Some(b' '));
    assert_eq!(scancode_to_ascii(0x66, false, false), Some(8));
    assert_eq!(scancode_to_ascii(0x00, false, false), None);
    assert_eq!(scancode_to_ascii(0x12, false, false), None);
}

#[test]
fn shift_and_caps_lock_change_what_is_typed() {
    let mut kb = Keyboard::new();
    assert!(!has_input(&kb));
    // h, shift down, i, shift up, caps lock, x, release of caps lock, 1
    keys(&mut kb, &[0x33, 0x12, 0x43, 0xF0, 0x12, 0x58, 0x22, 0xF0, 0x58, 0x16]);
    let mut out = Vec::new();
    while let Some(c) = read_char(&mut kb) {
        out.push(c);
    }
    assert_eq!(out, b"hIX1");
    // The release of a key types nothing.
    keys(&mut kb, &[0xF0, 0x1C]);
    assert!(!has_input(&kb));
}

#[test]
fn the_ring_buffer_drops_what_does_not_fit() {
    let mut kb = Keyboard::new();
    for _ in 0..300 {
        handle_scancode(&mut kb, 0x1C);
    }
    let mut count = 0;
    while kb.pop().is_some() {
        count += 1;
    }
    assert_eq!(count, 255);
    assert!(kb.is_empty());
    kb.push(b'z');
    assert_eq!(kb.pop(), Some(b'z'));
}

#[test]
fn a_line_ends_at_the_line_feed() {
    let mut kb = Keyboard::new();
    keys(&mut kb, &[0x33, 0x43, 0x5A, 0x1C]);
    assert_eq!(read_line(&mut kb, 10), b"hi\n");
    assert_eq!(read_line(&mut kb, 10), b"a");
    assert_eq!(read_line(&mut kb, 10), b"");
    keys(&mut kb, &[0x33, 0x43, 0x5A]);
    assert_eq!(read_line(&mut kb, 2), b"hi");
    assert_eq!(read_line(&mut kb, 0), b"");
    assert_eq!(read_line(&mut kb, 2), b"\n");
}

fn elf_image(segments: &[(u32, u32, u64, u64, u64, u64)]) -> Vec<u8> {
    let mut img = vec![0u8; 64 + 56 * segments.len()];
    img[0..4].copy_from_slice(&[0x7f, b'E', b'L', b'F']);
    img[4] = 2;
    img[18..20].copy_from_slice(&0x3Eu16.to_le_bytes());
    img[24..32].copy_from_slice(&0x40_1000u64.to_le_bytes());
    img[32..40].copy_from_slice(&64u64.to_le_bytes());
    img[54..56].copy_from_slice(&56u16.to_le_bytes());
    img[56..58].copy_from_slice(&(segments.len() as u16).to_le_bytes());
    for (i, &(ty, flags, offset, vaddr, filesz, memsz)) in segments.iter().enumerate() {
        let at = 64 + 56 * i;
        img[at..at + 4].copy_from_slice(&ty.to_le_bytes());
        img[at + 4..at + 8].copy_from_slice(&flags.to_le_bytes());
        img[at + 8..at + 16].copy_from_slice(&offset.to_le_bytes());
        img[at + 16..at + 24].copy_from_slice(&vaddr.to_le_bytes());
        img[at + 32..at + 40].copy_from_slice(&filesz.to_le_bytes());
        img[at + 40..at + 48].copy_from_slice(&memsz.to_le_bytes());
    }
    img
}

#[test]
fn elf_segments_are_planned() {
    let img = elf_image(&[(1, 5, 0, 0x40_0100, 100, 0x2100), (6, 4, 0, 0, 0, 0), (1, 6, 64, 0x60_0000, 8, 8)]);
    let loaded = load(&img).unwrap();
    assert_eq!(loaded.entry, 0x40_1000);
    assert_eq!(loaded.segments.len(), 2);
    let s = loaded.segments[0];
    assert_eq!(s.start_page, 0x40_0000);
    assert_eq!(s.end_page, 0x40_3000);
    assert_eq!(s.flags, 0b111);
    assert_eq!((s.vaddr, s.file_start, s.file_end), (0x40_0100, 0, 100));
    assert_eq!((s.zero_start, s.zero_len), (0x40_0164, 0x2100 - 100));
    let s = loaded.segments[1];
    assert_eq!(s.flags, 0b111 | (1 << 63));
    assert_eq!((s.start_page, s.end_page), (0x60_0000, 0x60_1000));
    assert_eq!((s.file_start, s.file_end, s.zero_len), (64, 72, 0));
}

#[test]
fn elf_images_are_checked() {
    assert_eq!(load(&[0u8; 10]).err(), Some("elf too small"));
    let mut img = elf_image(&[]);
    assert_eq!(parse_header(&img).unwrap().phnum, 0);
    assert_eq!(load(&img).unwrap().segments.len(), 0);
    img[1] = b'X';
    assert_eq!(load(&img).err(), Some("invalid elf magic"));
    let mut img = elf_image(&[]);
    img[4] = 1;
    assert_eq!(load(&img).err(), Some("not an elf64"));
    let mut img = elf_image(&[]);
    img[18] = 0x28;
    assert_eq!(load(&img).err(), Some("not an amd64 elf"));
    let mut img = elf_image(&[(1, 5, 0, 0x40_0000, 10, 10)]);
    img[56] = 2;
    assert_eq!(load(&img).err(), Some("program header out of bounds"));
    let img = elf_image(&[(1, 5, 100, 0x40_0000, 100, 100)]);
    assert_eq!(load(&img).err(), Some("segment data out of bounds"));
    let img = elf_image(&[(1, 5, 0, 0x8000_0000_0000, 10, 10)]);
    assert_eq!(load(&img).err(), Some("segment address is not canonical"));
    let img = elf_image(&[(1, 5, 0, u64::MAX - 5, 10, 10)]);
    assert_eq!(load(&img).err(), Some("segment address out of range"));
}

#[test]
fn segment_plan_of_a_header() {
    let ph = Elf64ProgramHeader {
        seg_type: 1,
        flags: 4,
        offset: 0x10,
        vaddr: 0x1000,
        paddr: 0,
        filesz: 0x20,
        memsz: 0x20,
        align: 0,
    };
    let s = plan_segment(&ph, 0x30).unwrap();
    assert_eq!((s.start_page, s.end_page, s.zero_len), (0x1000, 0x2000, 0));
    assert!(plan_segment(&ph, 0x2F).is_err());
}

fn mbr(entries: &[(u8, u32, u32)]) -> [u8; 512] {
    let mut s = [0u8; 512];
    for (i, &(ty, start, count)) in entries.iter().enumerate() {
        let at = 446 + 16 * i;
        s[at + 4] = ty;
        s[at + 8..at + 12].copy_from_slice(&start.to_le_bytes());
        s[at + 12..at + 16].copy_from_slice(&count.to_le_bytes());
    }
    s[510] = 0x55;
    s[511] = 0xAA;
    s
}

#[test]
fn mbr_partitions() {
    let s = mbr(&[(0, 0, 0), (0x0C, 2048, 1000), (0x83, 4096, 50), (0x42, 9, 9)]);
    let parts = parse_mbr(&s).unwrap();
    assert_eq!(parts.len(), 3);
    assert_eq!((parts[0].index, parts[0].start_lba, parts[0].sector_count), (1, 2048, 1000));
    assert_eq!(parts[0].partition_type, PartitionType::Fat32);
    assert_eq!(parts[1].partition_type, PartitionType::Linux);
    assert_eq!(parts[2].partition_type, PartitionType::Unknown(0x42));
    let mut disk = RamDisk::new(4);
    disk.write_sector(0, &s).unwrap();
    assert_eq!(first_partition(&disk).unwrap().unwrap().start_lba, 2048);
    assert_eq!(find_partition(&disk, PartitionType::Linux).unwrap().unwrap().start_lba, 4096);
    assert_eq!(find_partition(&disk, PartitionType::EfiSystem).unwrap(), None);
    let mut unsigned = RamDisk::new(4);
    assert_eq!(parse_partitions(&unsigned).err(), Some("no MBR signature"));
    unsigned.write_sector(0, &mbr(&[])).unwrap();
    assert_eq!(first_partition(&unsigned).unwrap(), None);
}

#[test]
fn gpt_partitions() {
    let basic: [u8; 16] = [
        0xA2, 0xA0, 0xD0, 0xEB, 0xE5, 0xB9, 0x33, 0x44, 0x87, 0xC0, 0x68, 0xB6, 0xB7, 0x26, 0x99,
        0xC7,
    ];
    assert_eq!(identify_gpt_type(&basic), PartitionType::Fat32);
    assert_eq!(identify_gpt_type(&[1u8; 16]), PartitionType::Unknown(0));
    let mut disk = RamDisk::new(8);
    disk.write_sector(0, &mbr(&[(0xEE, 1, 7)])).unwrap();
    assert_eq!(parse_gpt(&disk).err(), Some("invalid GPT signature"));
    let mut header = [0u8; 512];
    header[0..8].copy_from_slice(b"EFI PART");
    header[72..80].copy_from_slice(&2u64.to_le_bytes());
    header[80..84].copy_from_slice(&6u32.to_le_bytes());
    header[84..88].copy_from_slice(&128u32.to_le_bytes());
    disk.write_sector(1, &header).unwrap();
    let mut entries = [0u8; 512];
    entries[128..144].copy_from_slice(&basic);
    entries[128 + 32..128 + 40].copy_from_slice(&100u64.to_le_bytes());
    entries[128 + 40..128 + 48].copy_from_slice(&199u64.to_le_bytes());
    disk.write_sector(2, &entries).unwrap();
    let mut more = [0u8; 512];
    more[0] = 9;
    more[32..40].copy_from_slice(&300u64.to_le_bytes());
    more[40..48].copy_from_slice(&300u64.to_le_bytes());
    disk.write_sector(3, &more).unwrap();
    let parts = parse_partitions(&disk).unwrap();
    assert_eq!(parts.len(), 2);
    assert_eq!((parts[0].index, parts[0].start_lba, parts[0].sector_count), (1, 100, 100));
    assert_eq!(parts[0].partition_type, PartitionType::Fat32);
    assert_eq!((parts[1].index, parts[1].start_lba, parts[1].sector_count), (4, 300, 1));
    header[84..88].copy_from_slice(&0u32.to_le_bytes());
    disk.write_sector(1, &header).unwrap();
    assert_eq!(parse_gpt(&disk).err(), Some("invalid GPT entry size"));
}

#[test]
fn directory_entries_cross_the_boundary() {
    let entries = vec![
        DirEntry { name: "bin".to_string(), file_type: FileType::Directory },
        DirEntry { name: "readme.txt".to_string(), file_type: FileType::File },
        DirEntry { name: "ata0".to_string(), file_type: FileType::Device },
    ];
    let (bytes, next) = encode_dirents(&entries, 0, 1024);
    assert_eq!(next, 3);
    assert_eq!(&bytes[..6], &[2, 3, 0, b'b', b'i', b'n']);
    let mut it = DirEntryIter::new(&bytes, bytes.len());
    let e = it.next().unwrap();
    assert!(e.is_dir() && !e.is_file());
    assert_eq!(e.name(), b"bin");
    let e = it.next().unwrap();
    assert!(e.is_file());
    assert_eq!(e.name(), b"readme.txt");
    let e = it.next().unwrap();
    assert_eq!(e.file_type, 3);
    assert_eq!(e.name(), b"ata0");
    assert!(it.next().is_none());
    // Only whole entries are written.
    let (bytes, next) = encode_dirents(&entries, 0, 18);
    assert_eq!((bytes.len(), next), (6, 1));
    let (bytes, next) = encode_dirents(&entries, 1, 13);
    assert_eq!((bytes.len(), next), (13, 2));
    let (bytes, next) = encode_dirents(&entries, 3, 100);
    assert_eq!((bytes.len(), next), (0, 3));
}

fn booted() -> Kernel<RamDisk> {
    let mut k: Kernel<RamDisk> = Kernel::new();
    k.vfs.mount("/", FsKind::Tmp(TmpFs::new())).unwrap();
    k.vfs.mkdir("/tmp").unwrap();
    k.vfs.mkdir("/live").unwrap();
    k.vfs.mkdir("/live/tasks").unwrap();
    k.vfs.mount("/tmp", FsKind::Tmp(TmpFs::new())).unwrap();
    k.vfs.mount("/live/tasks", FsKind::Tasks(TasksFs::new())).unwrap();
    k
}

fn call(k: &mut Kernel<RamDisk>, num: u64, a1: u64, a2: u64, a3: u64, input: &[u8]) -> (u64, Vec<u8>) {
    let r = syscall_handler(k, num, a1, a2, a3, input);
    (r.value, r.output)
}

#[test]
fn write_close_reopen_read_through_system_calls() {
    let mut k = booted();
    let (fd, _) = call(&mut k, SYS_OPEN, 0, 0, (O_CREAT | O_WRONLY) as u64, b"/tmp/x");
    assert_eq!(fd, 3);
    assert_eq!(call(&mut k, SYS_WRITE, fd, 0, 2, b"hi").0, 2);
    assert_eq!(call(&mut k, SYS_CLOSE, fd, 0, 0, b"").0, 0);
    let (fd, _) = call(&mut k, SYS_OPEN, 0, 0, O_RDONLY as u64, b"/tmp/x");
    assert_eq!(fd, 3);
    assert_eq!(call(&mut k, SYS_READ, fd, 0, 2, b""), (2, b"hi".to_vec()));
    assert_eq!(call(&mut k, SYS_READ, fd, 0, 2, b""), (0, vec![]));
    assert_eq!(call(&mut k, SYS_WRITE, fd, 0, 1, b"x").0, FAILURE);
    assert_eq!(call(&mut k, SYS_CLOSE, fd, 0, 0, b"").0, 0);
    assert_eq!(call(&mut k, SYS_CLOSE, fd, 0, 0, b"").0, FAILURE);
    assert_eq!(call(&mut k, SYS_READ, fd, 0, 2, b"").0, FAILURE);
}

#[test]
fn directories_through_system_calls() {
    let mut k = booted();
    assert_eq!(call(&mut k, SYS_MKDIR, 0, 0, 0, b"/a").0, 0);
    assert_eq!(call(&mut k, SYS_MKDIR, 0, 0, 0, b"/a/b").0, 0);
    assert_eq!(call(&mut k, SYS_RMDIR, 0, 0, 0, b"/a").0, FAILURE);
    assert_eq!(call(&mut k, SYS_RMDIR, 0, 0, 0, b"/a/b").0, 0);
    assert_eq!(call(&mut k, SYS_RMDIR, 0, 0, 0, b"/a").0, 0);
    assert_eq!(call(&mut k, SYS_RMDIR, 0, 0, 0, b"/a").0, FAILURE);
    assert_eq!(call(&mut k, SYS_UNLINK, 0, 0, 0, b"/nothing").0, FAILURE);
    assert_eq!(call(&mut k, SYS_MKDIR, 0, 0, 0, &[0xFF, 0xFE]).0, FAILURE);
}

#[test]
fn working_directory_through_system_calls() {
    let mut k = booted();
    assert_eq!(call(&mut k, SYS_GETCWD, 0, 64, 0, b""), (1, b"/".to_vec()));
    assert_eq!(call(&mut k, SYS_CHDIR, 0, 0, 0, b"/nowhere").0, FAILURE);
    assert_eq!(call(&mut k, SYS_CHDIR, 0, 0, 0, b"tmp").0, 0);
    assert_eq!(call(&mut k, SYS_GETCWD, 0, 64, 0, b""), (4, b"/tmp".to_vec()));
    assert_eq!(call(&mut k, SYS_GETCWD, 0, 2, 0, b""), (2, b"/t".to_vec()));
    // Paths are taken from the working directory on.
    let (fd, _) = call(&mut k, SYS_OPEN, 0, 0, (O_CREAT | O_WRONLY) as u64, b"file");
    assert_eq!(fd, 3);
    assert!(k.vfs.path_exists("/tmp/file"));
    assert_eq!(call(&mut k, SYS_UNLINK, 0, 0, 0, b"./file").0, 0);
    assert_eq!(call(&mut k, SYS_CHDIR, 0, 0, 0, b"..").0, 0);
    assert_eq!(call(&mut k, SYS_GETCWD, 0, 64, 0, b"").1, b"/");
}

#[test]
fn the_standard_streams() {
    let mut k = booted();
    assert_eq!(call(&mut k, SYS_WRITE, 1, 0, 5, b"hello").0, 5);
    assert_eq!(call(&mut k, SYS_WRITE, 2, 0, 1, b"!").0, 1);
    assert_eq!(k.console, b"hello!");
    assert_eq!(call(&mut k, SYS_WRITE, 0, 0, 1, b"x").0, FAILURE);
    assert_eq!(call(&mut k, SYS_CLOSE, 1, 0, 0, b"").0, FAILURE);
    let r = syscall_handler(&mut k, SYS_READ, 0, 0, 16, b"");
    assert!(r.wait_for_input);
    for code in [0x33, 0x43, 0x5A, 0x1C] {
        handle_scancode(&mut k.keyboard, code);
    }
    let r = syscall_handler(&mut k, SYS_READ, 0, 0, 16, b"");
    assert!(!r.wait_for_input);
    assert_eq!((r.value, r.output), (3, b"hi\n".to_vec()));
    assert_eq!(call(&mut k, SYS_READ, 1, 0, 16, b"").0, FAILURE);
    assert_eq!(call(&mut k, 11, 0, 0, 0, b"").0, FAILURE);
    assert_eq!(call(&mut k, u64::MAX, 0, 0, 0, b"").0, FAILURE);
}

#[test]
fn the_task_list_is_read_through_system_calls() {
    let mut k = booted();
    k.sched.spawn_user(0x40_0000, 0x7000, 0x2000, stack(), 0x20_0000, Some(AddressSpace::new(0x9000)));
    k.timer_tick();
    assert_eq!(k.ticks(), 1);
    assert_eq!(k.sched.current, 1);
    let (fd, _) = call(&mut k, SYS_OPEN, 0, 0, (O_RDONLY | O_DIRECTORY) as u64, b"/live/tasks");
    assert_eq!(fd, 3);
    let (n, bytes) = call(&mut k, SYS_GETDENTS, fd, 0, 1024, b"");
    assert_eq!(n as usize, bytes.len());
    let mut names = Vec::new();
    let mut it = DirEntryIter::new(&bytes, bytes.len());
    while let Some(e) = it.next() {
        assert!(e.is_dir());
        names.push(e.name().to_vec());
    }
    assert_eq!(names, [b"0".to_vec(), b"1".to_vec()]);
    assert_eq!(call(&mut k, SYS_GETDENTS, fd, 0, 1024, b"").0, 0);
    assert_eq!(call(&mut k, SYS_GETDENTS, 9, 0, 1024, b"").0, FAILURE);
    let (file, _) = call(&mut k, SYS_OPEN, 0, 0, O_RDONLY as u64, b"/live/tasks/1/status");
    assert_eq!(file, 4);
    let (_, status) = call(&mut k, SYS_READ, file, 0, 256, b"");
    assert_eq!(String::from_utf8(status).unwrap(), "pid: 1\nstate: running\nmode: user");
    assert_eq!(call(&mut k, SYS_GETDENTS, file, 0, 1024, b"").0, FAILURE);
}

#[test]
fn exit_switches_to_another_task() {
    let mut k = booted();
    k.sched.spawn(0x1000, 0x2000, stack(), 0x10_0000);
    k.timer_tick();
    assert_eq!(k.sched.current, 1);
    let r = syscall_handler(&mut k, SYS_EXIT, 0, 0, 0, b"");
    assert_eq!(r.value, 0);
    let sw = r.switch.unwrap();
    assert_eq!((sw.old_index, sw.new_index), (1, 0));
    assert_eq!(k.sched.tasks[1].state, TaskState::Dead);
    k.timer_tick();
    assert_eq!(k.sched.tasks.len(), 1);
}

#[test]
fn descriptors_run_out_at_sixty_one_files() {
    let mut k = booted();
    for i in 0..61u64 {
        let name = format!("/tmp/f{}", i);
        let (fd, _) = call(&mut k, SYS_OPEN, 0, 0, (O_CREAT | O_WRONLY) as u64, name.as_bytes());
        assert_eq!(fd, 3 + i);
    }
    assert_eq!(call(&mut k, SYS_OPEN, 0, 0, (O_CREAT | O_WRONLY) as u64, b"/tmp/last").0, FAILURE);
}

#[test]
fn calls_name_the_user_memory_they_touch() {
    assert_eq!(input_span(SYS_WRITE, 1, 0x1000, 5), Some((0x1000, 5)));
    for num in [SYS_OPEN, SYS_MKDIR, SYS_UNLINK, SYS_RMDIR, SYS_CHDIR] {
        assert_eq!(input_span(num, 0x2000, 7, 9), Some((0x2000, 7)));
    }
    for num in [SYS_EXIT, SYS_READ, SYS_CLOSE, SYS_GETDENTS, SYS_GETCWD, 99] {
        assert_eq!(input_span(num, 1, 2, 3), None);
    }
    assert_eq!(output_address(SYS_READ, 3, 0x3000), Some(0x3000));
    assert_eq!(output_address(SYS_GETDENTS, 3, 0x3000), Some(0x3000));
    assert_eq!(output_address(SYS_GETCWD, 0x4000, 16), Some(0x4000));
    for num in [SYS_EXIT, SYS_WRITE, SYS_OPEN, SYS_CLOSE, SYS_MKDIR, 99] {
        assert_eq!(output_address(num, 1, 2), None);
    }
}

#[test]
fn the_first_task_is_a_kernel_task() {
    let s = Scheduler::init();
    assert_eq!(s.tasks.len(), 1);
    assert_eq!(s.current, 0);
    assert!(s.tasks[0].mode == TaskMode::Kernel);
    assert!(s.tasks[0].state == TaskState::Running);
    assert_eq!(s.tasks[0].cwd, "/");
}

#[test]
fn a_frame_given_back_is_taken_next_and_a_second_free_changes_nothing() {
    let mut pmm = Some(small_allocator());
    let mut taken = Vec::new();
    while let Some(a) = allocate(&mut pmm) {
        taken.push(a);
    }
    let f = taken[taken.len() / 2];
    free(&mut pmm, f);
    assert_eq!(free_pages(&pmm), 1);
    free(&mut pmm, f);
    assert_eq!(free_pages(&pmm), 1);
    free(&mut pmm, u64::MAX & !0xFFF);
    assert_eq!(free_pages(&pmm), 1);
    assert_eq!(allocate(&mut pmm), Some(f));
    assert_eq!(allocate(&mut pmm), None);
    assert_eq!(free_pages(&pmm), 0);
}

#[test]
fn a_new_task_holds_only_the_standard_streams() {
    let mut s = Scheduler::init();
    let id = s.spawn(0x1000, 0x2000, stack(), 0x10_0000);
    let uid = s.spawn_user(0x40_0000, 0x7FFF_0000, 0x2000, stack(), 0x20_0000, None);
    assert_eq!((id, uid, s.next_id), (1, 2, 3));
    for task in s.tasks.iter() {
        assert_eq!(task.fds.fds.len(), 64);
        assert!(task.fds.fds[..3].iter().all(|f| f.is_some()));
        assert!(task.fds.fds[3..].iter().all(|f| f.is_none()));
        assert_eq!(task.cwd, "/");
        assert!(task.wake_at.is_none());
        assert!(task.name.is_empty());
    }
    assert!(s.tasks[1].mode == TaskMode::Kernel && s.tasks[2].mode == TaskMode::User);
    assert!(s.tasks[1].state == TaskState::Ready && s.tasks[2].state == TaskState::Ready);
}

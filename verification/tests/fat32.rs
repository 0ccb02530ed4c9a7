use vcore::vfs::block::{BlockDevice, Partition, RamDisk};
use vcore::vfs::fat32::bpb::{Bpb, FAT32_EOC};
use vcore::vfs::fat32::dir::parse_directory;
use vcore::vfs::fat32::entry::{ShortDirEntry, ATTR_ARCHIVE, ATTR_DIRECTORY};
use vcore::vfs::fat32::dir::FatDirEntry;
use vcore::vfs::fat32::fs::{dir_to_remove, file_to_remove, holds_nothing, name_is_new, Fat32Fs};
use vcore::vfs::fat32::lfn::{assemble_lfn, create_lfn_entries, LfnEntry};
use vcore::vfs::fat32::name::{lfn_checksum, make_short_name, needs_lfn};
use vcore::vfs::fat32::table::{entry_in, Fat32Inner};
use vcore::vfs::types::{
    FileHandle, FileType, Filesystem, OpenFlags, SeekFrom, VfsError, O_APPEND, O_CREAT, O_RDONLY,
    O_RDWR, O_TRUNC, O_WRONLY,
};

const TOTAL_SECTORS: u32 = 4096;
const RESERVED: u16 = 32;
const SECTORS_PER_FAT: u32 = 32;

fn boot_sector(sectors_per_cluster: u8) -> [u8; 512] {
    let mut s = [0u8; 512];
    s[11..13].copy_from_slice(&512u16.to_le_bytes());
    s[13] = sectors_per_cluster;
    s[14..16].copy_from_slice(&RESERVED.to_le_bytes());
    s[16] = 2;
    s[32..36].copy_from_slice(&TOTAL_SECTORS.to_le_bytes());
    s[36..40].copy_from_slice(&SECTORS_PER_FAT.to_le_bytes());
    s[44..48].copy_from_slice(&2u32.to_le_bytes());
    s[48..50].copy_from_slice(&1u16.to_le_bytes());
    s[510] = 0x55;
    s[511] = 0xAA;
    s
}

fn formatted(sectors_per_cluster: u8) -> RamDisk {
    let mut disk = RamDisk::new(TOTAL_SECTORS);
    disk.write_sector(0, &boot_sector(sectors_per_cluster)).unwrap();
    let mut fat = [0u8; 512];
    fat[0..4].copy_from_slice(&0x0FFF_FFF8u32.to_le_bytes());
    fat[4..8].copy_from_slice(&0x0FFF_FFFFu32.to_le_bytes());
    fat[8..12].copy_from_slice(&0x0FFF_FFFFu32.to_le_bytes());
    disk.write_sector(RESERVED as u32, &fat).unwrap();
    disk.write_sector(RESERVED as u32 + SECTORS_PER_FAT, &fat).unwrap();
    disk
}

fn mounted(sectors_per_cluster: u8) -> Fat32Fs<RamDisk> {
    Fat32Fs::new(formatted(sectors_per_cluster)).unwrap()
}

fn rotate_checksum(name: &[u8; 11]) -> u8 {
    let mut sum: u8 = 0;
    for &b in name {
        sum = sum.rotate_right(1).wrapping_add(b);
    }
    sum
}

#[test]
fn bpb_fields_are_read_at_their_offsets() {
    let bpb = Bpb::parse(&boot_sector(4)).unwrap();
    assert_eq!(bpb.bytes_per_sector, 512);
    assert_eq!(bpb.sectors_per_cluster, 4);
    assert_eq!(bpb.reserved_sectors, 32);
    assert_eq!(bpb.num_fats, 2);
    assert_eq!(bpb.total_sectors, 4096);
    assert_eq!(bpb.sectors_per_fat, 32);
    assert_eq!(bpb.root_cluster, 2);
    assert_eq!(bpb.fs_info_sector, 1);
    assert_eq!(bpb.fat_start_sector(), 32);
    assert_eq!(bpb.data_start_sector(), 96);
    assert_eq!(bpb.cluster_to_sector(2), 96);
    assert_eq!(bpb.cluster_to_sector(5), 108);
    assert_eq!(bpb.bytes_per_cluster(), 2048);
    assert_eq!(bpb.total_clusters(), 1000);
    assert!(bpb.is_valid());
}

#[test]
fn bpb_needs_the_signature() {
    let mut s = boot_sector(1);
    s[511] = 0;
    assert!(Bpb::parse(&s).is_none());
}

#[test]
fn bpb_uses_the_short_total_when_it_is_set() {
    let mut s = boot_sector(1);
    s[19..21].copy_from_slice(&1234u16.to_le_bytes());
    assert_eq!(Bpb::parse(&s).unwrap().total_sectors, 1234);
}

#[test]
fn mount_refuses_a_geometry_without_tables() {
    let mut disk = RamDisk::new(64);
    let mut s = boot_sector(1);
    s[36..40].copy_from_slice(&0u32.to_le_bytes());
    disk.write_sector(0, &s).unwrap();
    assert!(Fat32Fs::new(disk).is_err());
}

#[test]
fn mount_refuses_a_sector_size_other_than_512() {
    let mut disk = RamDisk::new(64);
    let mut s = boot_sector(1);
    s[11..13].copy_from_slice(&1024u16.to_le_bytes());
    disk.write_sector(0, &s).unwrap();
    assert!(Fat32Fs::new(disk).is_err());
}

#[test]
fn short_entry_round_trip() {
    let mut raw = [0u8; 32];
    for (i, b) in raw.iter_mut().enumerate() {
        *b = (i as u8).wrapping_mul(7).wrapping_add(1);
    }
    let entry = ShortDirEntry::parse(&raw).unwrap();
    assert_eq!(entry.serialize(), raw);
    assert_eq!(entry.attr, raw[11]);
    assert_eq!(entry.size, u32::from_le_bytes([raw[28], raw[29], raw[30], raw[31]]));
    assert_eq!(
        entry.cluster(),
        ((u16::from_le_bytes([raw[20], raw[21]]) as u32) << 16)
            | u16::from_le_bytes([raw[26], raw[27]]) as u32
    );
}

#[test]
fn short_entry_is_refused_when_short_or_unused() {
    assert!(ShortDirEntry::parse(&[1u8; 31]).is_none());
    assert!(ShortDirEntry::parse(&[0u8; 32]).is_none());
}

#[test]
fn short_entry_cluster_halves() {
    let mut e = ShortDirEntry::with_name(*b"A          ", ATTR_ARCHIVE, 0x0012_3456, 9);
    assert_eq!(e.cluster_high, 0x0012);
    assert_eq!(e.cluster_low, 0x3456);
    assert_eq!(e.cluster(), 0x0012_3456);
    e.set_cluster(0x0ABC_DEF0);
    assert_eq!(e.cluster(), 0x0ABC_DEF0);
    assert_eq!(e.size, 9);
}

#[test]
fn short_entry_flags() {
    let dir = ShortDirEntry::with_name(*b"D          ", ATTR_DIRECTORY, 3, 0);
    assert!(dir.is_directory());
    assert!(!dir.is_volume_label());
    assert!(!dir.is_lfn());
    assert!(!dir.is_free());
    let gone = ShortDirEntry::with_name(
        [0xE5, 32, 32, 32, 32, 32, 32, 32, 32, 32, 32],
        0x0F,
        0,
        0,
    );
    assert!(gone.is_deleted());
    assert!(gone.is_free());
    assert!(gone.is_lfn());
}

#[test]
fn short_names_are_shown_as_stored() {
    let e = ShortDirEntry::with_name(*b"README  TXT", ATTR_ARCHIVE, 0, 0);
    assert_eq!(e.short_name(), "README.TXT");
    let e = ShortDirEntry::with_name(*b"KERNEL     ", ATTR_ARCHIVE, 0, 0);
    assert_eq!(e.short_name(), "KERNEL");
    let e = ShortDirEntry::with_name(*b"a_b     c  ", ATTR_ARCHIVE, 0, 0);
    assert_eq!(e.short_name(), "a_b.c");
    let e = ShortDirEntry::with_name(*b".          ", ATTR_DIRECTORY, 0, 0);
    assert_eq!(e.short_name(), ".");
}

#[test]
fn short_name_of_a_name() {
    assert_eq!(&make_short_name("readme.txt"), b"README  TXT");
    assert_eq!(&make_short_name("shell"), b"SHELL      ");
    assert_eq!(&make_short_name("a b.c"), b"A_B     C  ");
    assert_eq!(&make_short_name("verylongname.text"), b"VERYLONGTEX");
    assert_eq!(&make_short_name("x.tar.gz"), b"X_TAR   GZ ");
    assert_eq!(&make_short_name(""), b"           ");
}

#[test]
fn which_names_need_long_entries() {
    assert!(!needs_lfn("README.TXT"));
    assert!(!needs_lfn("A_B-C.X"));
    assert!(!needs_lfn("123"));
    assert!(needs_lfn("A.B.C"));
    assert!(needs_lfn("A."));
    assert!(!needs_lfn(".A"));
    assert!(needs_lfn("."));
    assert!(needs_lfn(".."));
    assert!(needs_lfn("readme.txt"));
    assert!(needs_lfn("LONGFILENAME.TXT"));
    assert!(needs_lfn("FILE.TEXT"));
    assert!(needs_lfn("NINECHARS"));
    assert!(needs_lfn("A B"));
    assert!(!needs_lfn("EIGHTCHR"));
    assert!(needs_lfn("caf\u{e9}"));
}

#[test]
fn checksum_of_a_short_name() {
    let name = *b"README  TXT";
    assert_eq!(lfn_checksum(&name), rotate_checksum(&name));
    let name = *b"SHELL      ";
    assert_eq!(lfn_checksum(&name), rotate_checksum(&name));
    assert_eq!(lfn_checksum(&[0u8; 11]), 0);
}

#[test]
fn long_name_entries_round_trip() {
    let short = make_short_name("a rather long file name.document");
    let entries = create_lfn_entries("a rather long file name.document", &short);
    assert_eq!(entries.len(), 3);
    assert_eq!(entries[0].seq, 3 | 0x40);
    assert_eq!(entries[1].seq, 2);
    assert_eq!(entries[2].seq, 1);
    assert!(entries[0].is_last());
    assert!(!entries[2].is_last());
    assert_eq!(entries[2].sequence_number(), 1);
    for e in &entries {
        assert_eq!(e.checksum, rotate_checksum(&short));
        assert_eq!(e.attr, 0x0F);
    }
    assert_eq!(assemble_lfn(&entries), "a rather long file name.document");
}

#[test]
fn long_name_of_exactly_thirteen_characters() {
    let short = make_short_name("thirteenchars");
    let entries = create_lfn_entries("thirteenchars", &short);
    assert_eq!(entries.len(), 1);
    assert_eq!(entries[0].name3, ['r' as u16, 's' as u16]);
    assert_eq!(assemble_lfn(&entries), "thirteenchars");
}

#[test]
fn long_name_entry_bytes_round_trip() {
    let chars: Vec<char> = "hello.c".chars().collect();
    let e = LfnEntry::new(1, 0x5A, &chars, true);
    assert_eq!(e.name1, ['h' as u16, 'e' as u16, 'l' as u16, 'l' as u16, 'o' as u16]);
    assert_eq!(e.name2, ['.' as u16, 'c' as u16, 0, 0xFFFF, 0xFFFF, 0xFFFF]);
    assert_eq!(e.name3, [0xFFFF, 0xFFFF]);
    let raw = e.serialize();
    assert_eq!(raw[0], 0x41);
    assert_eq!(raw[11], 0x0F);
    assert_eq!(raw[13], 0x5A);
    let back = LfnEntry::parse(&raw).unwrap();
    assert_eq!(back.seq, e.seq);
    assert_eq!(back.name1, e.name1);
    assert_eq!(back.name2, e.name2);
    assert_eq!(back.name3, e.name3);
    assert_eq!(back.chars(), chars);
    assert!(LfnEntry::parse(&[0u8; 32]).is_none());
}

#[test]
fn fat_entries_keep_their_high_bits() {
    let mut fs = mounted(1);
    let inner: &mut Fat32Inner<RamDisk> = &mut fs.inner;
    let mut sector = [0u8; 512];
    inner.read_sector(32, &mut sector).unwrap();
    sector[20..24].copy_from_slice(&0xA000_0000u32.to_le_bytes());
    inner.write_sector(32, &sector).unwrap();
    inner.set_fat_entry(5, 0xFFFF_FFFF).unwrap();
    assert_eq!(inner.get_fat_entry(5).unwrap(), 0x0FFF_FFFF);
    inner.read_sector(32, &mut sector).unwrap();
    assert_eq!(u32::from_le_bytes([sector[20], sector[21], sector[22], sector[23]]), 0xAFFF_FFFF);
    // The second copy of the table is written too.
    inner.read_sector(64, &mut sector).unwrap();
    assert_eq!(u32::from_le_bytes([sector[20], sector[21], sector[22], sector[23]]), 0x0FFF_FFFF);
    assert!(inner.get_fat_entry(32 * 128).is_err());
}

#[test]
fn clusters_are_allocated_lowest_first_and_zeroed() {
    let mut fs = mounted(1);
    let mut junk = [0xABu8; 512];
    junk[0] = 1;
    fs.inner.write_sector(97, &junk).unwrap();
    let c = fs.inner.allocate_cluster().unwrap();
    assert_eq!(c, 3);
    assert_eq!(fs.inner.get_fat_entry(3).unwrap(), FAT32_EOC);
    let mut buf = vec![1u8; 512];
    fs.inner.read_cluster(3, &mut buf).unwrap();
    assert_eq!(buf, vec![0u8; 512]);
    assert_eq!(fs.inner.allocate_cluster().unwrap(), 4);
}

#[test]
fn chain_round_trip() {
    let mut fs = mounted(1);
    let data: Vec<u8> = (0..1300u32).map(|i| (i % 251) as u8).collect();
    let first = fs.inner.write_chain(0, &data).unwrap();
    let back = fs.inner.read_chain(first).unwrap();
    assert_eq!(back.len(), 3 * 512);
    assert_eq!(&back[..data.len()], &data[..]);
    assert!(back[data.len()..].iter().all(|&b| b == 0));
}

#[test]
fn six_hundred_bytes_take_two_clusters() {
    let mut fs = mounted(1);
    let data: Vec<u8> = (0..600u32).map(|i| (i * 3 % 256) as u8).collect();
    let first = fs.inner.write_chain(0, &data).unwrap();
    let second = fs.inner.get_fat_entry(first).unwrap();
    assert!(second >= 2 && second < FAT32_EOC);
    assert!(fs.inner.get_fat_entry(second).unwrap() >= FAT32_EOC);
    assert_eq!(fs.inner.get_last_cluster(first).unwrap(), second);
    let back = fs.inner.read_chain(first).unwrap();
    assert_eq!(&back[..600], &data[..]);
}

#[test]
fn chain_grows_when_rewritten_with_more_data() {
    let mut fs = mounted(1);
    let small = vec![7u8; 100];
    let first = fs.inner.write_chain(0, &small).unwrap();
    let big: Vec<u8> = (0..2000u32).map(|i| (i % 199) as u8).collect();
    let again = fs.inner.write_chain(first, &big).unwrap();
    assert_eq!(again, first);
    let back = fs.inner.read_chain(first).unwrap();
    assert_eq!(&back[..2000], &big[..]);
    assert_eq!(back[511], big[511]);
    assert_eq!(back[512], big[512]);
}

#[test]
fn writing_nothing_leaves_the_start() {
    let mut fs = mounted(1);
    assert_eq!(fs.inner.write_chain(0, &[]).unwrap(), 0);
    assert_eq!(fs.inner.write_chain(7, &[]).unwrap(), 7);
}

#[test]
fn freed_chains_are_free_again() {
    let mut fs = mounted(1);
    let first = fs.inner.write_chain(0, &vec![1u8; 1500]).unwrap();
    let second = fs.inner.get_fat_entry(first).unwrap();
    fs.inner.free_chain(first).unwrap();
    assert_eq!(fs.inner.get_fat_entry(first).unwrap(), 0);
    assert_eq!(fs.inner.get_fat_entry(second).unwrap(), 0);
    assert_eq!(fs.inner.allocate_cluster().unwrap(), first);
}

#[test]
fn allocated_chain_has_the_asked_length() {
    let mut fs = mounted(1);
    assert_eq!(fs.inner.allocate_chain(0).unwrap(), 0);
    let first = fs.inner.allocate_chain(3).unwrap();
    let data = fs.inner.read_chain(first).unwrap();
    assert_eq!(data, vec![0u8; 3 * 512]);
}

#[test]
fn cyclic_chain_is_refused_when_read() {
    let mut fs = mounted(1);
    fs.inner.set_fat_entry(10, 11).unwrap();
    fs.inner.set_fat_entry(11, 10).unwrap();
    // Reading would never end; here it ends with an error once the chain
    // is longer than any chain can be. Only the walk without data is tried.
    assert!(fs.inner.get_last_cluster(10).is_err());
}

#[test]
fn names_come_back_from_the_directory() {
    let names = [
        "hello.txt",
        "a rather long file name.document",
        "MixedCase",
        "thirteenchars",
        "exactly26characters_long__",
        "123",
        "caf\u{e9}.txt",
    ];
    let mut fs = mounted(1);
    for (i, name) in names.iter().enumerate() {
        fs.inner.add_dir_entry(2, name, ATTR_ARCHIVE, 100 + i as u32, i as u32).unwrap();
    }
    let entries = fs.inner.read_directory(2).unwrap();
    assert_eq!(entries.len(), names.len());
    for (i, name) in names.iter().enumerate() {
        assert_eq!(entries[i].name, *name);
        assert_eq!(entries[i].cluster(), 100 + i as u32);
        assert_eq!(entries[i].size(), i as u32);
        assert!(!entries[i].is_directory());
    }
}

#[test]
fn name_of_255_characters_comes_back() {
    let name: String = (0..255).map(|i| (b'a' + (i % 26) as u8) as char).collect();
    let mut fs = mounted(4);
    fs.inner.add_dir_entry(2, &name, ATTR_ARCHIVE, 0, 0).unwrap();
    let entries = fs.inner.read_directory(2).unwrap();
    assert_eq!(entries.len(), 1);
    assert_eq!(entries[0].name, name);
    assert_eq!(entries[0].entry_count, 21);
}

#[test]
fn every_name_comes_back_as_it_was_given() {
    let names = [
        "README.TXT", "FOO.TXT", "DOCS", "docs", "Mixed.Case", "A.B.C", "x.tar.gz", "123", ".", "..",
        ".hidden", "trailing.", "a b", "caf\u{e9}", "LONGFILENAME.TXT", "NINECHARS",
    ];
    let mut fs = mounted(4);
    for (i, name) in names.iter().enumerate() {
        fs.inner.add_dir_entry(2, name, ATTR_ARCHIVE, 10 + i as u32, i as u32).unwrap();
    }
    let entries = fs.inner.read_directory(2).unwrap();
    assert_eq!(entries.len(), names.len());
    for (i, name) in names.iter().enumerate() {
        assert_eq!(entries[i].name, *name);
        assert_eq!(entries[i].short_entry.cluster(), 10 + i as u32);
        assert_eq!(entries[i].short_entry.size, i as u32);
        assert_eq!(entries[i].short_entry.attr, ATTR_ARCHIVE);
    }
    assert_eq!(entries[0].entry_count, 1);
    assert_eq!(entries[2].entry_count, 1);
    assert_eq!(entries[5].entry_count, 2);
}

#[test]
fn a_stray_long_name_entry_does_not_name_the_short_entry_behind_it() {
    let mut fs = mounted(1);
    fs.inner.add_dir_entry(2, "first", ATTR_ARCHIVE, 0, 0).unwrap();
    let mut data = fs.inner.read_chain(2).unwrap();
    data[32] = 0xE5;
    fs.inner.store_directory(2, &data).unwrap();
    assert!(fs.inner.read_directory(2).unwrap().is_empty());
    fs.inner.add_dir_entry(2, "DOCS", ATTR_ARCHIVE, 0, 0).unwrap();
    let entries = fs.inner.read_directory(2).unwrap();
    assert_eq!(entries.len(), 1);
    assert_eq!(entries[0].name, "DOCS");
}

#[test]
fn lookup_ignores_case() {
    let mut fs = mounted(1);
    fs.inner.add_dir_entry(2, "Shell", ATTR_ARCHIVE, 9, 0).unwrap();
    assert!(fs.inner.find_in_directory(2, "SHELL").unwrap().is_some());
    assert!(fs.inner.find_in_directory(2, "shell").unwrap().is_some());
    assert!(fs.inner.find_in_directory(2, "shel").unwrap().is_none());
}

#[test]
fn directory_grows_by_a_cluster_when_full() {
    let mut fs = mounted(1);
    for i in 0..20 {
        fs.inner.add_dir_entry(2, &format!("F{}", i), ATTR_ARCHIVE, 0, 0).unwrap();
    }
    let entries = fs.inner.read_directory(2).unwrap();
    assert_eq!(entries.len(), 20);
    assert_eq!(fs.inner.read_chain(2).unwrap().len(), 1024);
}

#[test]
fn removed_entries_are_gone_and_their_slots_reused() {
    let mut fs = mounted(1);
    fs.inner.add_dir_entry(2, "first long name", ATTR_ARCHIVE, 0, 0).unwrap();
    fs.inner.add_dir_entry(2, "SECOND", ATTR_ARCHIVE, 0, 0).unwrap();
    let entry = fs.inner.find_in_directory(2, "first long name").unwrap().unwrap();
    assert_eq!(entry.entry_offset, 0);
    assert_eq!(entry.entry_count, 3);
    fs.inner.remove_dir_entry(2, &entry).unwrap();
    let entries = fs.inner.read_directory(2).unwrap();
    assert_eq!(entries.len(), 1);
    assert_eq!(entries[0].name, "SECOND");
    fs.inner.add_dir_entry(2, "third name", ATTR_ARCHIVE, 0, 0).unwrap();
    let entry = fs.inner.find_in_directory(2, "third name").unwrap().unwrap();
    assert_eq!(entry.entry_offset, 0);
}

#[test]
fn updated_entry_keeps_its_name() {
    let mut fs = mounted(1);
    fs.inner.add_dir_entry(2, "some file.txt", ATTR_ARCHIVE, 0, 0).unwrap();
    let mut entry = fs.inner.find_in_directory(2, "some file.txt").unwrap().unwrap();
    entry.short_entry.set_cluster(77);
    entry.short_entry.size = 1234;
    fs.inner.update_dir_entry(2, &entry).unwrap();
    let entry = fs.inner.find_in_directory(2, "some file.txt").unwrap().unwrap();
    assert_eq!(entry.cluster(), 77);
    assert_eq!(entry.size(), 1234);
}

#[test]
fn directory_bytes_decode_without_a_device() {
    let mut data = vec![0u8; 96];
    let e = ShortDirEntry::with_name(*b"ONE     TXT", ATTR_ARCHIVE, 5, 42);
    data[0..32].copy_from_slice(&e.serialize());
    let label = ShortDirEntry::with_name(*b"VOLUME     ", 0x08, 0, 0);
    data[32..64].copy_from_slice(&label.serialize());
    let entries = parse_directory(&data);
    assert_eq!(entries.len(), 1);
    assert_eq!(entries[0].name, "ONE.TXT");
    assert_eq!(entries[0].entry_offset, 0);
}

#[test]
fn new_file_written_and_read_back() {
    let mut fs = mounted(1);
    assert!(matches!(
        fs.open("/notes.txt", OpenFlags::from_bits(O_RDONLY)),
        Err(VfsError::NotFound)
    ));
    let mut h = fs.open("/notes.txt", OpenFlags::from_bits(O_CREAT | O_WRONLY)).unwrap();
    let data: Vec<u8> = (0..600u32).map(|i| (i % 256) as u8).collect();
    assert_eq!(h.write(&data).unwrap(), 600);
    fs.close(h).unwrap();
    let meta = fs.metadata("/notes.txt").unwrap();
    assert_eq!(meta.file_type, FileType::File);
    assert_eq!(meta.size, 600);
    let mut h = fs.open("/notes.txt", OpenFlags::from_bits(O_RDONLY)).unwrap();
    let mut buf = vec![0u8; 1000];
    assert_eq!(h.read(&mut buf).unwrap(), 600);
    assert_eq!(&buf[..600], &data[..]);
    assert_eq!(h.read(&mut buf).unwrap(), 0);
    // The file takes exactly two clusters.
    let entry = fs.inner.find_in_directory(2, "notes.txt").unwrap().unwrap();
    let second = fs.inner.get_fat_entry(entry.cluster()).unwrap();
    assert!(second < FAT32_EOC);
    assert!(fs.inner.get_fat_entry(second).unwrap() >= FAT32_EOC);
}

#[test]
fn file_grown_across_a_cluster_boundary() {
    let mut fs = mounted(1);
    let mut h = fs.open("/grow", OpenFlags::from_bits(O_CREAT | O_RDWR)).unwrap();
    h.write(&vec![1u8; 500]).unwrap();
    fs.close(h).unwrap();
    let mut h = fs.open("/grow", OpenFlags::from_bits(O_RDWR | O_APPEND)).unwrap();
    assert_eq!(h.position, 500);
    h.write(&[2u8; 40]).unwrap();
    fs.close(h).unwrap();
    let mut h = fs.open("/grow", OpenFlags::from_bits(O_RDONLY)).unwrap();
    let mut buf = vec![0u8; 540];
    assert_eq!(h.read(&mut buf).unwrap(), 540);
    assert_eq!(&buf[..500], &vec![1u8; 500][..]);
    assert_eq!(&buf[500..], &[2u8; 40][..]);
    assert_eq!(buf[511], 2);
    assert_eq!(buf[512], 2);
}

#[test]
fn read_only_handle_refuses_writes() {
    let mut fs = mounted(1);
    let h = fs.open("/f", OpenFlags::from_bits(O_CREAT | O_WRONLY)).unwrap();
    fs.close(h).unwrap();
    let mut h = fs.open("/f", OpenFlags::from_bits(O_RDONLY)).unwrap();
    assert_eq!(h.write(b"x"), Err(VfsError::PermissionDenied));
}

#[test]
fn truncating_open_empties_the_file() {
    let mut fs = mounted(1);
    let mut h = fs.open("/t", OpenFlags::from_bits(O_CREAT | O_WRONLY)).unwrap();
    h.write(b"content").unwrap();
    fs.close(h).unwrap();
    let h = fs.open("/t", OpenFlags::from_bits(O_WRONLY | O_TRUNC)).unwrap();
    assert!(h.dirty);
    assert_eq!(h.data.len(), 0);
    fs.close(h).unwrap();
    assert_eq!(fs.metadata("/t").unwrap().size, 0);
}

#[test]
fn seek_moves_the_position() {
    let mut fs = mounted(1);
    let mut h = fs.open("/s", OpenFlags::from_bits(O_CREAT | O_RDWR)).unwrap();
    h.write(b"0123456789").unwrap();
    assert_eq!(h.seek(SeekFrom::Start(4)), Ok(4));
    assert_eq!(h.seek(SeekFrom::Current(-2)), Ok(2));
    assert_eq!(h.seek(SeekFrom::End(-1)), Ok(9));
    assert_eq!(h.seek(SeekFrom::Current(-10)), Err(VfsError::InvalidPath));
    assert_eq!(h.position, 9);
    let mut buf = vec![0u8; 4];
    assert_eq!(h.read(&mut buf).unwrap(), 1);
    assert_eq!(buf[0], b'9');
    assert_eq!(h.metadata().unwrap().size, 10);
}

#[test]
fn directories_are_made_listed_and_removed() {
    let mut fs = mounted(1);
    fs.mkdir("/a").unwrap();
    fs.mkdir("/a/b").unwrap();
    assert_eq!(fs.mkdir("/a"), Err(VfsError::AlreadyExists));
    assert_eq!(fs.rmdir("/a"), Err(VfsError::NotEmpty));
    let list = fs.readdir("/a").unwrap();
    assert_eq!(list.len(), 1);
    assert_eq!(list[0].name, "b");
    assert_eq!(list[0].file_type, FileType::Directory);
    assert_eq!(fs.metadata("/a/b").unwrap().file_type, FileType::Directory);
    fs.rmdir("/a/b").unwrap();
    fs.rmdir("/a").unwrap();
    assert_eq!(fs.readdir("/").unwrap().len(), 0);
    assert_eq!(fs.rmdir("/a"), Err(VfsError::NotFound));
}

#[test]
fn new_directory_holds_dot_and_dotdot() {
    let mut fs = mounted(1);
    fs.mkdir("/d").unwrap();
    let entry = fs.inner.find_in_directory(2, "d").unwrap().unwrap();
    let raw = fs.inner.read_chain(entry.cluster()).unwrap();
    let dot = ShortDirEntry::parse(&raw[0..32]).unwrap();
    let dotdot = ShortDirEntry::parse(&raw[32..64]).unwrap();
    assert_eq!(&dot.name, b".          ");
    assert_eq!(dot.cluster(), entry.cluster());
    assert_eq!(&dotdot.name, b"..         ");
    assert_eq!(dotdot.cluster(), 2);
    assert!(dot.is_directory() && dotdot.is_directory());
}

#[test]
fn files_are_removed_and_their_clusters_freed() {
    let mut fs = mounted(1);
    let mut h = fs.open("/gone", OpenFlags::from_bits(O_CREAT | O_WRONLY)).unwrap();
    h.write(&vec![9u8; 700]).unwrap();
    fs.close(h).unwrap();
    let entry = fs.inner.find_in_directory(2, "gone").unwrap().unwrap();
    let first = entry.cluster();
    fs.remove("/gone").unwrap();
    assert_eq!(fs.inner.get_fat_entry(first).unwrap(), 0);
    assert_eq!(fs.remove("/gone"), Err(VfsError::NotFound));
    fs.mkdir("/dir").unwrap();
    assert_eq!(fs.remove("/dir"), Err(VfsError::IsADirectory));
    assert_eq!(fs.remove("/"), Err(VfsError::InvalidPath));
}

#[test]
fn errors_of_open_and_listing() {
    let mut fs = mounted(1);
    fs.mkdir("/dir").unwrap();
    let h = fs.open("/dir/file", OpenFlags::from_bits(O_CREAT | O_WRONLY)).unwrap();
    fs.close(h).unwrap();
    assert!(matches!(
        fs.open("/dir", OpenFlags::from_bits(O_RDONLY)),
        Err(VfsError::IsADirectory)
    ));
    assert!(matches!(fs.readdir("/dir/file"), Err(VfsError::NotADirectory)));
    assert!(matches!(fs.readdir("/nothing"), Err(VfsError::NotFound)));
    assert!(matches!(fs.metadata("/nothing"), Err(VfsError::NotFound)));
    assert_eq!(fs.rmdir("/dir/file"), Err(VfsError::NotADirectory));
    assert_eq!(fs.metadata("/").unwrap().file_type, FileType::Directory);
    assert!(matches!(
        fs.open("/missing/file", OpenFlags::from_bits(O_CREAT | O_WRONLY)),
        Err(VfsError::InvalidPath)
    ));
}

#[test]
fn volume_on_a_partition() {
    let mut disk = RamDisk::new(TOTAL_SECTORS + 100);
    disk.write_sector(100, &boot_sector(1)).unwrap();
    let mut fat = [0u8; 512];
    fat[8..12].copy_from_slice(&0x0FFF_FFFFu32.to_le_bytes());
    disk.write_sector(100 + RESERVED as u32, &fat).unwrap();
    disk.write_sector(100 + RESERVED as u32 + SECTORS_PER_FAT, &fat).unwrap();
    let part = Partition::new(disk, 100, TOTAL_SECTORS);
    assert_eq!(part.start_lba(), 100);
    let mut buf = [0u8; 512];
    assert!(part.read_sector(TOTAL_SECTORS, &mut buf).is_err());
    let mut fs = Fat32Fs::new(part).unwrap();
    fs.mkdir("/on-partition").unwrap();
    assert_eq!(fs.readdir("/").unwrap()[0].name, "on-partition");
}

#[test]
fn what_has_no_cluster_needs_no_device() {
    let mut fs = mounted(1);
    let root = fs.inner.bpb.root_cluster;
    assert_eq!(fs.inner.read_chain(0).unwrap(), Vec::<u8>::new());
    assert_eq!(fs.inner.read_chain(FAT32_EOC).unwrap(), Vec::<u8>::new());
    assert!(fs.inner.free_chain(0).is_ok());
    assert!(fs.inner.free_chain(0x0FFF_FFFF).is_ok());
    assert!(fs.inner.get_last_cluster(0).is_err());
    assert!(fs.inner.get_last_cluster(FAT32_EOC).is_err());
    assert_eq!(fs.inner.get_last_cluster(root).unwrap(), root);
    assert!(fs.inner.read_directory(0).unwrap().is_empty());
    assert!(fs.inner.find_in_directory(0, "x").unwrap().is_none());
    assert!(fs.inner.find_free_dir_slots(0, 1).is_err());
    assert!(fs.inner.add_dir_entry(0, "x", ATTR_ARCHIVE, 0, 0).is_err());
    assert!(fs.inner.store_directory(root, &[]).is_ok());
}

#[test]
fn short_paths_are_split_without_a_lookup() {
    let fs = mounted(1);
    let root = fs.inner.bpb.root_cluster;
    let (dir, entry) = fs.inner.resolve_path("/").unwrap();
    assert_eq!(dir, root);
    assert!(entry.is_none());
    assert!(fs.inner.resolve_parts(&vec![vec!['a']], 0).unwrap().1.is_none());
    let (dir, name) = fs.inner.split_path("/a").unwrap();
    assert_eq!((dir, name.as_str()), (root, "a"));
    assert!(fs.inner.split_path("/").is_err());
    assert!(fs.inner.split_path("/missing/a").is_err());
}

#[test]
fn a_partition_reads_and_writes_its_own_range() {
    let mut disk = RamDisk::new(8);
    disk.write_sector(5, &[7u8; 512]).unwrap();
    let mut part = Partition::new(disk, 4, 2);
    let mut buf = [0u8; 512];
    part.read_sector(1, &mut buf).unwrap();
    assert_eq!(buf, [7u8; 512]);
    assert!(part.read_sector(2, &mut buf).is_err());
    assert_eq!(buf, [7u8; 512]);
    part.write_sector(0, &[9u8; 512]).unwrap();
    assert!(part.write_sector(2, &[1u8; 512]).is_err());
    let disk = part.into_inner();
    disk.read_sector(4, &mut buf).unwrap();
    assert_eq!(buf, [9u8; 512]);
    disk.read_sector(6, &mut buf).unwrap();
    assert_eq!(buf, [0u8; 512]);
}

#[test]
fn a_table_entry_is_the_low_28_bits_at_its_place() {
    let mut sector = [0u8; 512];
    sector[12..16].copy_from_slice(&0xF234_5678u32.to_le_bytes());
    sector[508..512].copy_from_slice(&0x0FFF_FFFFu32.to_le_bytes());
    assert_eq!(entry_in(&sector, 3), 0x0234_5678);
    assert_eq!(entry_in(&sector, 131), 0x0234_5678);
    assert_eq!(entry_in(&sector, 127), 0x0FFF_FFFF);
    assert_eq!(entry_in(&sector, 0), 0);
}

fn found_entry(attr: u8) -> FatDirEntry {
    FatDirEntry {
        name: String::from("x"),
        short_entry: ShortDirEntry::new("x", attr, 5, 0),
        lfn_entries: Vec::new(),
        entry_offset: 0,
        entry_count: 1,
    }
}

#[test]
fn what_a_lookup_says_to_making_and_removing() {
    assert_eq!(name_is_new(Ok(None)), Ok(()));
    assert_eq!(name_is_new(Ok(Some(found_entry(ATTR_ARCHIVE)))), Err(VfsError::AlreadyExists));
    assert_eq!(name_is_new(Err("read failed")), Err(VfsError::IoError));

    assert_eq!(file_to_remove(Ok(None)).err(), Some(VfsError::NotFound));
    assert_eq!(file_to_remove(Err("read failed")).err(), Some(VfsError::IoError));
    assert_eq!(
        file_to_remove(Ok(Some(found_entry(ATTR_DIRECTORY)))).err(),
        Some(VfsError::IsADirectory)
    );
    assert_eq!(file_to_remove(Ok(Some(found_entry(ATTR_ARCHIVE)))).unwrap().name, "x");

    assert_eq!(dir_to_remove(Ok(None)).err(), Some(VfsError::NotFound));
    assert_eq!(dir_to_remove(Err("read failed")).err(), Some(VfsError::IoError));
    assert_eq!(
        dir_to_remove(Ok(Some(found_entry(ATTR_ARCHIVE)))).err(),
        Some(VfsError::NotADirectory)
    );
    assert_eq!(dir_to_remove(Ok(Some(found_entry(ATTR_DIRECTORY)))).unwrap().name, "x");

    assert_eq!(holds_nothing(Ok(Vec::new())), Ok(()));
    assert_eq!(holds_nothing(Ok(vec![found_entry(ATTR_ARCHIVE)])), Err(VfsError::NotEmpty));
    assert_eq!(holds_nothing(Err("read failed")), Err(VfsError::IoError));
}

#[test]
fn refusals_of_mkdir_rmdir_and_remove_change_nothing() {
    let mut fs = mounted(1);
    fs.mkdir("/a").unwrap();
    fs.mkdir("/a/b").unwrap();
    let before = fs.inner.device.data.clone();
    assert_eq!(fs.mkdir("/a"), Err(VfsError::AlreadyExists));
    assert_eq!(fs.mkdir("/"), Err(VfsError::InvalidPath));
    assert_eq!(fs.mkdir("/missing/c"), Err(VfsError::InvalidPath));
    assert_eq!(fs.rmdir("/a"), Err(VfsError::NotEmpty));
    assert_eq!(fs.rmdir("/none"), Err(VfsError::NotFound));
    assert_eq!(fs.remove("/a"), Err(VfsError::IsADirectory));
    assert_eq!(fs.remove("/none"), Err(VfsError::NotFound));
    assert_eq!(fs.remove("/"), Err(VfsError::InvalidPath));
    assert_eq!(fs.open("/a", OpenFlags::from_bits(O_RDONLY)).err(), Some(VfsError::IsADirectory));
    assert_eq!(
        fs.open("/a", OpenFlags::from_bits(O_CREAT | O_WRONLY)).err(),
        Some(VfsError::IsADirectory)
    );
    assert_eq!(fs.open("/", OpenFlags::from_bits(O_RDONLY)).err(), Some(VfsError::NotFound));
    assert_eq!(fs.open("/", OpenFlags::from_bits(O_CREAT)).err(), Some(VfsError::InvalidPath));
    assert!(fs.inner.device.data == before);
    assert!(fs.readdir("/a/b").unwrap().is_empty());
    assert_eq!(fs.rmdir("/a/b"), Ok(()));
    assert_eq!(fs.rmdir("/a"), Ok(()));
}

#[test]
fn a_written_chain_ends_with_the_end_mark() {
    let mut fs = mounted(1);
    let first = fs.inner.write_chain(0, &[7u8; 600]).unwrap();
    let second = fs.inner.get_fat_entry(first).unwrap();
    assert!(second >= 2 && second < FAT32_EOC && second != first);
    assert!(fs.inner.get_fat_entry(second).unwrap() >= FAT32_EOC);
    assert_eq!(fs.inner.get_last_cluster(first).unwrap(), second);
}

#[test]
fn a_full_table_hands_nothing_out_and_is_left_alone() {
    let mut fs = mounted(1);
    let total = fs.inner.bpb.total_clusters();
    for c in 2..total + 2 {
        fs.inner.set_fat_entry(c, FAT32_EOC).unwrap();
    }
    let before = fs.inner.device.data.clone();
    assert!(fs.inner.allocate_cluster().is_err());
    assert!(fs.inner.extend_chain(2).is_err());
    assert!(fs.inner.device.data == before);
}

#[test]
fn mkdir_refuses_a_parent_whose_chain_has_no_end_mark() {
    let mut fs = mounted(1);
    fs.inner.set_fat_entry(2, 0).unwrap();
    let before = fs.inner.device.data.clone();
    assert_eq!(fs.mkdir("/a"), Err(VfsError::IoError));
    assert!(fs.inner.device.data == before);
}

#[test]
fn made_directories_and_files_are_listed_under_their_names() {
    let mut fs = mounted(1);
    fs.mkdir("/DOCS").unwrap();
    fs.mkdir("/docs2").unwrap();
    fs.open("/FOO.TXT", OpenFlags::from_bits(O_CREAT | O_WRONLY)).unwrap();
    fs.open("/A.B.C", OpenFlags::from_bits(O_CREAT | O_WRONLY)).unwrap();
    let names: Vec<String> = fs.readdir("/").unwrap().into_iter().map(|e| e.name).collect();
    assert_eq!(names, vec!["DOCS", "docs2", "FOO.TXT", "A.B.C"]);
    assert!(fs.readdir("/DOCS").unwrap().is_empty());
    assert_eq!(fs.metadata("/docs").unwrap().file_type, FileType::Directory);
}

#[test]
fn an_added_name_is_one_entry_more_among_those_that_were_listed() {
    let mut fs = mounted(1);
    fs.open("/first.txt", OpenFlags::from_bits(O_CREAT | O_WRONLY)).unwrap();
    fs.open("/GONE", OpenFlags::from_bits(O_CREAT | O_WRONLY)).unwrap();
    fs.mkdir("/A long directory name").unwrap();
    fs.open("/LAST.BIN", OpenFlags::from_bits(O_CREAT | O_WRONLY)).unwrap();
    fs.remove("/GONE").unwrap();
    let before: Vec<(String, bool)> = fs
        .readdir("/")
        .unwrap()
        .into_iter()
        .map(|e| (e.name, e.file_type == FileType::Directory))
        .collect();
    assert_eq!(before.len(), 3);
    fs.open("/NEW", OpenFlags::from_bits(O_CREAT | O_WRONLY)).unwrap();
    let after: Vec<(String, bool)> = fs
        .readdir("/")
        .unwrap()
        .into_iter()
        .map(|e| (e.name, e.file_type == FileType::Directory))
        .collect();
    assert_eq!(after.len(), 4);
    let place = after.iter().position(|e| e.0 == "NEW").unwrap();
    assert_eq!(after[place], ("NEW".to_string(), false));
    let mut rest = after.clone();
    rest.remove(place);
    assert_eq!(rest, before);
    // The slot of the removed file is taken again: the new name stands
    // where the removed one stood.
    assert_eq!(place, 1);
}

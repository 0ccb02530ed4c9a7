//! Directories: the entries a directory's bytes decode to, free slots,
//! and the bytes of entries that are added, rewritten or deleted.

use vstd::prelude::*;
use crate::text::{str_is, string_of};
use crate::vfs::fat32::entry::{
    short_name_text, ShortDirEntry, ATTR_LFN, ATTR_VOLUME_ID, DELETED_MARKER, DIR_ENTRY_SIZE,
};
use crate::bytes::byte_of;
use crate::vfs::fat32::lfn::{
    assemble_chars, assembled, chunk_units, is_lfn_run, lfn_chunk, lfn_count, LfnEntry,
};
use crate::vfs::fat32::name::{checksum_of, lfn_checksum};

verus! {

/// One file or subdirectory found in a directory.
#[derive(Debug, Clone)]
pub struct FatDirEntry {
    /// The long name when the entry has a valid one, else the short name.
    pub name: String,
    pub short_entry: ShortDirEntry,
    /// The long-name entries that precede the short entry, as stored.
    pub lfn_entries: Vec<LfnEntry>,
    /// Byte offset in the directory of the first slot of the entry.
    pub entry_offset: usize,
    /// Number of slots of the entry: the long-name entries and the short one.
    pub entry_count: usize,
}

/// A directory entry as the contracts see it.
pub struct DirEntryView {
    pub name: Seq<char>,
    pub short: ShortDirEntry,
    pub lfn: Seq<LfnEntry>,
    pub offset: int,
    pub count: int,
}

impl View for FatDirEntry {
    type V = DirEntryView;

    open spec fn view(&self) -> DirEntryView {
        DirEntryView {
            name: self.name@,
            short: self.short_entry,
            lfn: self.lfn_entries@,
            offset: self.entry_offset as int,
            count: self.entry_count as int,
        }
    }
}

impl FatDirEntry {
    /// The first cluster of the file or subdirectory.
    pub fn cluster(&self) -> (r: u32)
        ensures
            r == self.short_entry.cluster_spec(),
    {
        self.short_entry.cluster()
    }

    /// Whether the entry is a subdirectory.
    pub fn is_directory(&self) -> (r: bool)
        ensures
            r == (self.short_entry.attr & crate::vfs::fat32::entry::ATTR_DIRECTORY != 0),
    {
        self.short_entry.is_directory()
    }

    /// The size of the file in bytes.
    pub fn size(&self) -> (r: u32)
        ensures
            r == self.short_entry.size,
    {
        self.short_entry.size
    }
}

/// The 32 bytes of slot number `k` of a directory.
pub open spec fn slot(data: Seq<u8>, k: int) -> Seq<u8> {
    data.subrange(32 * k, 32 * k + 32)
}

/// The short entry that 32 bytes decode to.
pub open spec fn short_of(bytes: Seq<u8>) -> ShortDirEntry {
    choose|e: ShortDirEntry| e.decodes(bytes)
}

/// The long-name entry that 32 bytes decode to.
pub open spec fn lfn_of(bytes: Seq<u8>) -> LfnEntry {
    choose|e: LfnEntry| e.decodes(bytes)
}

/// A short entry is determined by the bytes it decodes.
pub proof fn lemma_short_of(e: ShortDirEntry, bytes: Seq<u8>)
    requires
        e.decodes(bytes),
    ensures
        short_of(bytes) == e,
{
    let f = short_of(bytes);
    assert(f.decodes(bytes));
    assert(f.name =~= e.name);
}

/// A long-name entry is determined by the bytes it decodes.
pub proof fn lemma_lfn_of(e: LfnEntry, bytes: Seq<u8>)
    requires
        e.decodes(bytes),
    ensures
        lfn_of(bytes) == e,
{
    let f = lfn_of(bytes);
    assert(f.decodes(bytes));
    assert(f.name1 =~= e.name1);
    assert(f.name2 =~= e.name2);
    assert(f.name3 =~= e.name3);
}

/// Whether every entry of `parts` carries the checksum `sum`.
pub open spec fn all_checksums(parts: Seq<LfnEntry>, sum: u8) -> bool {
    forall|j: int| 0 <= j < parts.len() ==> (#[trigger] parts[j]).checksum == sum
}

/// The name shown for a short entry that follows the long-name entries
/// `parts`: the assembled long name when there are parts and each carries
/// the checksum of the short name, else the short name.
pub open spec fn entry_name(parts: Seq<LfnEntry>, short: ShortDirEntry) -> Seq<char> {
    if parts.len() > 0 && all_checksums(parts, checksum_of(short.name@)) {
        assembled(parts)
    } else {
        short_name_text(short.name@)
    }
}

/// Whether a short entry is listed: the entries `.` and `..` are not.
pub open spec fn is_listed(short: ShortDirEntry) -> bool {
    short_name_text(short.name@) != seq!['.'] && short_name_text(short.name@) != seq!['.', '.']
}

/// The directory entry made of a short entry at slot `k` and the
/// long-name entries `parts` gathered before it, the first at `lfn_start`.
pub open spec fn entry_at(
    parts: Seq<LfnEntry>,
    lfn_start: int,
    k: int,
    short: ShortDirEntry,
) -> DirEntryView {
    DirEntryView {
        name: entry_name(parts, short),
        short,
        lfn: parts,
        offset: if parts.len() > 0 {
            lfn_start
        } else {
            32 * k
        },
        count: parts.len() as int + 1,
    }
}

/// The entries of a directory from slot `k` on, given the long-name
/// entries `parts` gathered so far (the first of them at byte offset
/// `lfn_start`) and the entries `acc` found so far.
///
/// A slot whose first byte is zero ends the directory. A deleted slot and
/// a volume label drop the gathered parts. A long-name slot is gathered,
/// after dropping the parts when it is flagged as the last of its name.
/// Any other slot is a short entry, which takes the gathered parts.
pub open spec fn scan_dir(
    data: Seq<u8>,
    k: int,
    parts: Seq<LfnEntry>,
    lfn_start: int,
    acc: Seq<DirEntryView>,
) -> Seq<DirEntryView>
    decreases data.len() - 32 * k,
{
    if k < 0 || 32 * k + 32 > data.len() {
        acc
    } else {
        let e = slot(data, k);
        if e[0] == 0 {
            acc
        } else if e[0] == DELETED_MARKER {
            scan_dir(data, k + 1, Seq::empty(), lfn_start, acc)
        } else if e[11] == ATTR_LFN {
            let lfn = lfn_of(e);
            if lfn.seq & crate::vfs::fat32::entry::LFN_LAST_ENTRY != 0 {
                scan_dir(data, k + 1, seq![lfn], 32 * k, acc)
            } else {
                scan_dir(data, k + 1, parts.push(lfn), lfn_start, acc)
            }
        } else {
            let short = short_of(e);
            if short.attr & ATTR_VOLUME_ID != 0 {
                scan_dir(data, k + 1, Seq::empty(), lfn_start, acc)
            } else if is_listed(short) {
                scan_dir(
                    data,
                    k + 1,
                    Seq::empty(),
                    lfn_start,
                    acc.push(entry_at(parts, lfn_start, k, short)),
                )
            } else {
                scan_dir(data, k + 1, Seq::empty(), lfn_start, acc)
            }
        }
    }
}

/// The entries of the directory whose bytes are `data`.
pub open spec fn dir_entries(data: Seq<u8>) -> Seq<DirEntryView> {
    scan_dir(data, 0, Seq::empty(), 0, Seq::empty())
}

/// The views of a vector of directory entries.
pub open spec fn views(entries: Seq<FatDirEntry>) -> Seq<DirEntryView> {
    Seq::new(entries.len(), |j: int| entries[j]@)
}

/// Decides whether every entry of `parts` carries the checksum `sum`.
pub fn checksums_match(parts: &Vec<LfnEntry>, sum: u8) -> (r: bool)
    ensures
        r == all_checksums(parts@, sum),
{
    let mut j: usize = 0;
    while j < parts.len()
        invariant
            j <= parts@.len(),
            forall|x: int| 0 <= x < j ==> (#[trigger] parts@[x]).checksum == sum,
        decreases parts@.len() - j,
    {
        if parts[j].checksum != sum {
            return false;
        }
        j += 1;
    }
    true
}

/// Decodes the entries of the directory whose bytes are `data`.
pub fn parse_directory(data: &[u8]) -> (r: Vec<FatDirEntry>)
    ensures
        views(r@) == dir_entries(data@),
{
    let mut entries: Vec<FatDirEntry> = Vec::new();
    let mut lfn_parts: Vec<LfnEntry> = Vec::new();
    let mut lfn_start_offset: usize = 0;
    let n: usize = data.len();
    let mut i: usize = 0;
    let ghost mut k: int = 0;
    proof {
        assert(views(entries@) =~= Seq::<DirEntryView>::empty());
        reveal_strlit(".");
        reveal_strlit("..");
    }
    while n - i >= DIR_ENTRY_SIZE
        invariant
            i <= n,
            n == data@.len(),
            i == 32 * k,
            0 <= k,
            lfn_parts@.len() <= k,
            "."@ == seq!['.'],
            ".."@ == seq!['.', '.'],
            scan_dir(data@, k, lfn_parts@, lfn_start_offset as int, views(entries@)) == dir_entries(
                data@,
            ),
        decreases n - i,
    {
        let entry_data: &[u8] = &data[i..i + DIR_ENTRY_SIZE];
        assert(entry_data@ == slot(data@, k));
        if entry_data[0] == 0x00 {
            return entries;
        }
        if entry_data[0] == DELETED_MARKER {
            lfn_parts = Vec::new();
        } else if entry_data[11] == ATTR_LFN {
            match LfnEntry::parse(entry_data) {
                Some(lfn) => {
                    proof {
                        lemma_lfn_of(lfn, entry_data@);
                    }
                    let last = lfn.is_last();
                    if last {
                        lfn_parts = Vec::new();
                        lfn_start_offset = i;
                    }
                    lfn_parts.push(lfn);
                    assert(last ==> lfn_parts@ =~= seq![lfn]);
                },
                None => {},
            }
        } else {
            match ShortDirEntry::parse(entry_data) {
                Some(short) => {
                    proof {
                        lemma_short_of(short, entry_data@);
                    }
                    if short.is_volume_label() {
                        lfn_parts = Vec::new();
                    } else {
                        let short_name = short.short_name();
                        let use_long = lfn_parts.len() > 0 && checksums_match(
                            &lfn_parts,
                            lfn_checksum(&short.name),
                        );
                        let listed = !str_is(short_name.as_str(), ".") && !str_is(
                            short_name.as_str(),
                            "..",
                        );
                        if listed {
                            let name: String = if use_long {
                                let chars = assemble_chars(lfn_parts.as_slice());
                                string_of(chars.as_slice())
                            } else {
                                short_name
                            };
                            let entry_offset: usize = if lfn_parts.len() > 0 {
                                lfn_start_offset
                            } else {
                                i
                            };
                            let entry_count: usize = lfn_parts.len() + 1;
                            let ghost before = views(entries@);
                            let ghost parts = lfn_parts@;
                            let taken = lfn_parts;
                            lfn_parts = Vec::new();
                            entries.push(
                                FatDirEntry {
                                    name,
                                    short_entry: short,
                                    lfn_entries: taken,
                                    entry_offset,
                                    entry_count,
                                },
                            );
                            assert(views(entries@) =~= before.push(
                                entry_at(parts, lfn_start_offset as int, k, short),
                            ));
                        } else {
                            lfn_parts = Vec::new();
                        }
                    }
                },
                None => {},
            }
        }
        i += DIR_ENTRY_SIZE;
        proof {
            k = k + 1;
        }
    }
    entries
}

/// Whether slot `k` of a directory can take a new entry: its first byte
/// is zero or the deleted mark.
pub open spec fn slot_free(data: Seq<u8>, k: int) -> bool {
    data[32 * k] == 0 || data[32 * k] == DELETED_MARKER
}

/// The search for `wanted` free slots in a row, from slot `k` on, with a
/// row of `run` free slots that began at byte offset `start` just before.
/// The result tells whether a row was found, where the last row of free
/// slots began, and how long that row is.
pub open spec fn free_scan(data: Seq<u8>, k: int, run: int, start: int, wanted: int) -> (
    bool,
    int,
    int,
)
    decreases data.len() - 32 * k,
{
    if k < 0 || 32 * k + 32 > data.len() {
        (false, start, run)
    } else if slot_free(data, k) {
        let begun = if run == 0 {
            32 * k
        } else {
            start
        };
        if run + 1 >= wanted {
            (true, begun, run + 1)
        } else {
            free_scan(data, k + 1, run + 1, begun, wanted)
        }
    } else {
        free_scan(data, k + 1, 0, start, wanted)
    }
}

/// Where a new entry of `wanted` slots goes: at the first row of that many
/// free slots; without one, at the free slots that end the directory, or
/// at the end of the directory when its last slot is in use.
pub open spec fn slots_offset(data: Seq<u8>, wanted: int) -> int {
    let found = free_scan(data, 0, 0, 0, wanted);
    if found.0 || found.2 > 0 {
        found.1
    } else {
        data.len() as int
    }
}

/// The directory bytes a new entry is placed in: the directory itself
/// when it has a row of `wanted` free slots, else the directory with one
/// more cluster of zero bytes.
pub open spec fn slots_grown(data: Seq<u8>, wanted: int, cluster_bytes: int) -> Seq<u8> {
    if free_scan(data, 0, 0, 0, wanted).0 {
        data
    } else {
        data.add(Seq::new(cluster_bytes as nat, |i: int| 0u8))
    }
}

/// `data` with `bytes` stored from `offset` on.
pub open spec fn overlay(data: Seq<u8>, offset: int, bytes: Seq<u8>) -> Seq<u8> {
    Seq::new(
        data.len(),
        |x: int|
            if offset <= x < offset + bytes.len() {
                bytes[x - offset]
            } else {
                data[x]
            },
    )
}

/// The bytes of the slots of one entry: the long-name entries as stored,
/// then the short entry.
pub open spec fn entry_slots(lfns: Seq<LfnEntry>, short: ShortDirEntry) -> Seq<u8> {
    Seq::new(
        (32 * (lfns.len() + 1)) as nat,
        |x: int|
            if x < 32 * lfns.len() {
                lfns[x / 32].bytes()[x % 32]
            } else {
                short.bytes()[x - 32 * lfns.len()]
            },
    )
}

/// `data` with the first byte of each of `count` slots from `offset` on
/// replaced by the deleted mark.
pub open spec fn with_deleted(data: Seq<u8>, offset: int, count: int) -> Seq<u8> {
    Seq::new(
        data.len(),
        |x: int|
            if x >= offset && (x - offset) % 32 == 0 && (x - offset) / 32 < count {
                DELETED_MARKER
            } else {
                data[x]
            },
    )
}

/// What a search for free slots found.
pub struct FreeScan {
    /// Whether a row of the wanted length was found.
    pub found: bool,
    /// Byte offset at which the last row of free slots began.
    pub start_offset: usize,
    /// Length of that row, in slots.
    pub consecutive: usize,
}

/// Searches `data` for `slots_needed` free slots in a row.
pub fn scan_free_slots(data: &[u8], slots_needed: usize) -> (r: FreeScan)
    ensures
        (r.found, r.start_offset as int, r.consecutive as int) == free_scan(
            data@,
            0,
            0,
            0,
            slots_needed as int,
        ),
{
    let n: usize = data.len();
    let mut consecutive_free: usize = 0;
    let mut start_offset: usize = 0;
    let mut i: usize = 0;
    let ghost mut k: int = 0;
    while n - i >= DIR_ENTRY_SIZE
        invariant
            i <= n,
            n == data@.len(),
            i == 32 * k,
            0 <= k,
            consecutive_free <= k,
            free_scan(
                data@,
                k,
                consecutive_free as int,
                start_offset as int,
                slots_needed as int,
            ) == free_scan(data@, 0, 0, 0, slots_needed as int),
        decreases n - i,
    {
        let is_free = data[i] == 0x00 || data[i] == DELETED_MARKER;
        if is_free {
            if consecutive_free == 0 {
                start_offset = i;
            }
            consecutive_free += 1;
            if consecutive_free >= slots_needed {
                return FreeScan { found: true, start_offset, consecutive: consecutive_free };
            }
        } else {
            consecutive_free = 0;
        }
        i += DIR_ENTRY_SIZE;
        proof {
            k = k + 1;
        }
    }
    FreeScan { found: false, start_offset, consecutive: consecutive_free }
}

/// Stores the 32 bytes of one slot at `at`.
pub fn put_slot(data: &mut Vec<u8>, at: usize, bytes: &[u8; 32])
    requires
        at + 32 <= old(data)@.len(),
    ensures
        final(data)@ == overlay(old(data)@, at as int, bytes@),
{
    let n: usize = data.len();
    let mut j: usize = 0;
    while j < 32
        invariant
            j <= 32,
            n == data@.len(),
            data@.len() == old(data)@.len(),
            at + 32 <= n,
            forall|x: int|
                0 <= x < n ==> data@[x] == if at <= x < at + j {
                    bytes@[x - at]
                } else {
                    old(data)@[x]
                },
        decreases 32 - j,
    {
        data[at + j] = bytes[j];
        j += 1;
    }
    assert(data@ =~= overlay(old(data)@, at as int, bytes@));
}

/// Stores the slots of one entry at `offset`: the long-name entries, then
/// the short entry.
pub fn place_entries(
    data: &mut Vec<u8>,
    offset: usize,
    lfn_entries: &Vec<LfnEntry>,
    short: &ShortDirEntry,
)
    requires
        offset + 32 * (lfn_entries@.len() + 1) <= old(data)@.len(),
    ensures
        final(data)@ == overlay(old(data)@, offset as int, entry_slots(lfn_entries@, *short)),
{
    let n: usize = data.len();
    let count: usize = lfn_entries.len();
    let mut j: usize = 0;
    while j < count
        invariant
            j <= count,
            count == lfn_entries@.len(),
            n == data@.len(),
            data@.len() == old(data)@.len(),
            offset + 32 * (count + 1) <= n,
            forall|x: int|
                0 <= x < n ==> data@[x] == if offset <= x < offset + 32 * j {
                    lfn_entries@[(x - offset) / 32].bytes()[(x - offset) % 32]
                } else {
                    old(data)@[x]
                },
        decreases count - j,
    {
        let bytes = lfn_entries[j].serialize();
        let ghost before = data@;
        put_slot(data, offset + j * DIR_ENTRY_SIZE, &bytes);
        proof {
            assert forall|x: int| 0 <= x < n implies data@[x] == if offset <= x < offset + 32 * (j
                + 1) {
                lfn_entries@[(x - offset) / 32].bytes()[(x - offset) % 32]
            } else {
                old(data)@[x]
            } by {
                if offset + 32 * j <= x < offset + 32 * (j + 1) {
                    assert((x - offset) / 32 == j as int);
                    assert((x - offset) % 32 == x - offset - 32 * j);
                }
            }
        }
        j += 1;
    }
    let bytes = short.serialize();
    put_slot(data, offset + count * DIR_ENTRY_SIZE, &bytes);
    assert(data@ =~= overlay(old(data)@, offset as int, entry_slots(lfn_entries@, *short)));
}

/// Marks `count` slots from `offset` on as deleted; slots beyond the end
/// of `data` are left out.
pub fn mark_deleted(data: &mut Vec<u8>, offset: usize, count: usize)
    ensures
        final(data)@ == with_deleted(old(data)@, offset as int, count as int),
{
    let n: usize = data.len();
    let mut i: usize = 0;
    let mut at: usize = offset;
    while i < count && at < n
        invariant
            i <= count,
            n == data@.len(),
            data@.len() == old(data)@.len(),
            at == offset + 32 * i,
            forall|x: int|
                0 <= x < n ==> data@[x] == if x >= offset && (x - offset) % 32 == 0 && (x
                    - offset) / 32 < i {
                    DELETED_MARKER
                } else {
                    old(data)@[x]
                },
        decreases count - i,
    {
        data[at] = DELETED_MARKER;
        proof {
            assert forall|x: int| 0 <= x < n implies data@[x] == if x >= offset && (x - offset)
                % 32 == 0 && (x - offset) / 32 < i + 1 {
                DELETED_MARKER
            } else {
                old(data)@[x]
            } by {
                if x == at {
                    assert((x - offset) / 32 == i as int);
                }
            }
        }
        i += 1;
        if n - at <= DIR_ENTRY_SIZE {
            proof {
                assert forall|x: int| 0 <= x < n implies #[trigger] data@[x] == with_deleted(
                    old(data)@,
                    offset as int,
                    count as int,
                )[x] by {
                    if x >= offset && (x - offset) % 32 == 0 && (x - offset) / 32 >= i {
                        assert(x - offset >= 32 * i);
                    }
                }
            }
            assert(data@ =~= with_deleted(old(data)@, offset as int, count as int));
            return ;
        }
        at += DIR_ENTRY_SIZE;
    }
    proof {
        assert forall|x: int| 0 <= x < n implies #[trigger] data@[x] == with_deleted(
            old(data)@,
            offset as int,
            count as int,
        )[x] by {
            if x >= offset && (x - offset) % 32 == 0 && (x - offset) / 32 >= i {
                assert(x - offset >= 32 * i);
            }
        }
    }
    assert(data@ =~= with_deleted(old(data)@, offset as int, count as int));
}

/// The 32 bytes of a long-name slot with the given sequence byte, units
/// and checksum.
pub open spec fn lfn_slot(seq: u8, units: Seq<u16>, checksum: u8) -> Seq<u8> {
    Seq::new(
        32,
        |i: int|
            if i == 0 {
                seq
            } else if i < 11 {
                byte_of(units[(i - 1) / 2] as u32, (i - 1) % 2)
            } else if i == 11 {
                ATTR_LFN
            } else if i == 12 {
                0u8
            } else if i == 13 {
                checksum
            } else if i < 26 {
                byte_of(units[5 + (i - 14) / 2] as u32, (i - 14) % 2)
            } else if i < 28 {
                0u8
            } else {
                byte_of(units[11 + (i - 28) / 2] as u32, (i - 28) % 2)
            },
    )
}

/// The 32 bytes of a short slot for a new file: the name, the attribute,
/// the first cluster in two halves, the size, and zero everywhere else.
pub open spec fn fresh_short_slot(name: Seq<u8>, attr: u8, cluster: u32, size: u32) -> Seq<u8> {
    Seq::new(
        32,
        |i: int|
            if i < 11 {
                name[i]
            } else if i == 11 {
                attr
            } else if i < 20 {
                0u8
            } else if i < 22 {
                byte_of((cluster as int / 65536) as u32, i - 20)
            } else if i < 26 {
                0u8
            } else if i < 28 {
                byte_of((cluster as int % 65536) as u32, i - 26)
            } else {
                byte_of(size, i - 28)
            },
    )
}

/// The slots stored for a new entry named `chars` with the short name
/// `short_name`: when the name is `long`, one long-name slot for every
/// thirteen characters, the last part first and flagged, each with the
/// checksum of the short name; then the short slot.
pub open spec fn name_slots(
    chars: Seq<char>,
    short_name: Seq<u8>,
    long: bool,
    attr: u8,
    cluster: u32,
    size: u32,
) -> Seq<u8> {
    let count = if long {
        lfn_count(chars.len() as int)
    } else {
        0
    };
    Seq::new(
        (32 * (count + 1)) as nat,
        |x: int|
            if x < 32 * count {
                let k = x / 32;
                let index = count - 1 - k;
                lfn_slot(
                    LfnEntry::seq_byte(((index + 1) % 256) as u8, k == 0),
                    chunk_units(lfn_chunk(chars, index)),
                    checksum_of(short_name),
                )[x % 32]
            } else {
                fresh_short_slot(short_name, attr, cluster, size)[x - 32 * count]
            },
    )
}

/// The bytes of a long-name entry depend only on its sequence byte, its
/// units and its checksum.
pub proof fn lemma_lfn_slot(e: LfnEntry)
    ensures
        e.bytes() == lfn_slot(e.seq, e.units(), e.checksum),
{
    assert forall|i: int| 0 <= i < 32 implies e.bytes()[i] == lfn_slot(
        e.seq,
        e.units(),
        e.checksum,
    )[i] by {
        if 1 <= i < 11 {
            assert(e.units()[(i - 1) / 2] == e.name1@[(i - 1) / 2]);
        } else if 14 <= i < 26 {
            assert(e.units()[5 + (i - 14) / 2] == e.name2@[(i - 14) / 2]);
        } else if 28 <= i {
            assert(e.units()[11 + (i - 28) / 2] == e.name3@[(i - 28) / 2]);
        }
    }
    assert(e.bytes() =~= lfn_slot(e.seq, e.units(), e.checksum));
}

/// The bytes of a short entry whose time stamps are all zero.
pub proof fn lemma_fresh_short_slot(e: ShortDirEntry, cluster: u32)
    requires
        e.nt_res == 0,
        e.create_time_tenth == 0,
        e.create_time == 0,
        e.create_date == 0,
        e.access_date == 0,
        e.modify_time == 0,
        e.modify_date == 0,
        e.cluster_high as int == cluster as int / 65536,
        e.cluster_low as int == cluster as int % 65536,
    ensures
        e.bytes() == fresh_short_slot(e.name@, e.attr, cluster, e.size),
{
    assert(e.bytes() =~= fresh_short_slot(e.name@, e.attr, cluster, e.size));
}

/// The slots of a new entry, made of its long-name entries and its short
/// entry, are the slots stored for its name.
pub proof fn lemma_name_slots(
    lfns: Seq<LfnEntry>,
    short: ShortDirEntry,
    chars: Seq<char>,
    long: bool,
    cluster: u32,
)
    requires
        long ==> is_lfn_run(lfns, chars, checksum_of(short.name@)),
        !long ==> lfns.len() == 0,
        short.nt_res == 0,
        short.create_time_tenth == 0,
        short.create_time == 0,
        short.create_date == 0,
        short.access_date == 0,
        short.modify_time == 0,
        short.modify_date == 0,
        short.cluster_high as int == cluster as int / 65536,
        short.cluster_low as int == cluster as int % 65536,
    ensures
        entry_slots(lfns, short) == name_slots(
            chars,
            short.name@,
            long,
            short.attr,
            cluster,
            short.size,
        ),
        entry_slots(lfns, short).len() == 32 * (lfns.len() + 1),
{
    let count = lfns.len() as int;
    let want = name_slots(chars, short.name@, long, short.attr, cluster, short.size);
    lemma_fresh_short_slot(short, cluster);
    assert forall|x: int| 0 <= x < 32 * (count + 1) implies entry_slots(lfns, short)[x]
        == want[x] by {
        if x < 32 * count {
            let k = x / 32;
            lemma_lfn_slot(lfns[k]);
        }
    }
    assert(entry_slots(lfns, short) =~= want);
}

} // verus!

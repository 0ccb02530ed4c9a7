//! A filesystem whose files are the registered devices, read and written
//! sector by sector.

use vstd::prelude::*;
use crate::text::{chars_eq, chars_of, string_of};
use crate::vfs::block::{blocks_of, num_blocks, BlockDevice};
use crate::vfs::types::{seek_allowed, seek_goal};
use crate::vfs::tmpfs::{
    lemma_rising_with, lemma_rising_without, name_before, name_less, place_of, rising,
};
use crate::vfs::types::{
    seek_position, DirEntry, DirEntryModel, FileType, Filesystem, Metadata, OpenFlags, SeekFrom,
    VfsError, VfsResult, listing_view,
};

verus! {

/// The filesystem: the devices by name, in the order of their names.
pub struct DevFs<D: BlockDevice> {
    pub devices: Vec<(Vec<char>, D)>,
}

/// An open device: its name and a position in bytes.
pub struct BlockDeviceHandle {
    pub device_name: String,
    pub position: u64,
}

/// `path` without the `/` characters at its start.
pub open spec fn device_name(path: Seq<char>) -> Seq<char>
    decreases path.len(),
{
    if path.len() > 0 && path[0] == '/' {
        device_name(path.drop_first())
    } else {
        path
    }
}

/// Strips the `/` characters at the start of `path`.
pub fn strip_slashes(path: &[char]) -> (r: Vec<char>)
    ensures
        r@ == device_name(path@),
{
    let n: usize = path.len();
    let mut i: usize = 0;
    proof {
        assert(path@.subrange(0, n as int) =~= path@);
    }
    while i < n && path[i] == '/'
        invariant
            i <= n,
            n == path@.len(),
            device_name(path@) == device_name(path@.subrange(i as int, n as int)),
        decreases n - i,
    {
        proof {
            let rest = path@.subrange(i as int, n as int);
            assert(rest[0] == path@[i as int]);
            assert(rest.drop_first() =~= path@.subrange(i + 1, n as int));
        }
        i += 1;
    }
    let mut out: Vec<char> = Vec::new();
    let ghost rest = path@.subrange(i as int, n as int);
    let mut k: usize = i;
    while k < n
        invariant
            i <= k <= n,
            n == path@.len(),
            out@ == path@.subrange(i as int, k as int),
        decreases n - k,
    {
        out.push(path[k]);
        k += 1;
        assert(out@ =~= path@.subrange(i as int, k as int));
    }
    proof {
        if i < n {
            assert(rest[0] == path@[i as int]);
        }
    }
    out
}

impl<D: BlockDevice> DevFs<D> {
    /// The names of the devices, in stored order.
    pub open spec fn names(&self) -> Seq<Seq<char>> {
        Seq::new(self.devices@.len(), |i: int| self.devices@[i].0@)
    }

    /// Position of the device named `name`, or the number of devices.
    pub open spec fn index_of(names: Seq<Seq<char>>, name: Seq<char>) -> int
        decreases names.len(),
    {
        if names.len() == 0 {
            0
        } else if names[0] == name {
            0
        } else {
            1 + Self::index_of(names.drop_first(), name)
        }
    }

    /// A name whose position is the number of names is none of them.
    pub proof fn lemma_absent(names: Seq<Seq<char>>, name: Seq<char>)
        requires
            Self::index_of(names, name) >= names.len(),
        ensures
            !names.contains(name),
        decreases names.len(),
    {
        if names.len() > 0 {
            let rest = names.drop_first();
            Self::lemma_absent(rest, name);
            if names.contains(name) {
                let k = choose|k: int| 0 <= k < names.len() && names[k] == name;
                assert(k > 0);
                assert(rest[k - 1] == name);
            }
        }
    }

    /// Position at which a device named `name` is inserted: before the
    /// first device whose name does not come before it.
    pub open spec fn insert_at(names: Seq<Seq<char>>, name: Seq<char>) -> int {
        place_of(names, name)
    }

    /// A filesystem without devices.
    pub fn new() -> (r: Self)
        ensures
            r.devices@.len() == 0,
            rising(r.names()),
    {
        Self { devices: Vec::new() }
    }

    /// Finds the device named `name`.
    pub fn find(&self, name: &[char]) -> (r: Option<usize>)
        ensures
            match r {
                Some(i) => i < self.devices@.len() && i == Self::index_of(self.names(), name@)
                    && self.devices@[i as int].0@ == name@,
                None => Self::index_of(self.names(), name@) >= self.devices@.len(),
            },
    {
        let n: usize = self.devices.len();
        let ghost all = self.names();
        let mut i: usize = 0;
        proof {
            assert(all.subrange(0, n as int) =~= all);
        }
        while i < n
            invariant
                i <= n,
                n == self.devices@.len(),
                all == self.names(),
                Self::index_of(all, name@) == i + Self::index_of(
                    all.subrange(i as int, n as int),
                    name@,
                ),
            decreases n - i,
        {
            proof {
                let rest = all.subrange(i as int, n as int);
                assert(rest[0] == all[i as int]);
                assert(rest.drop_first() =~= all.subrange(i + 1, n as int));
            }
            if chars_eq(self.devices[i].0.as_slice(), name) {
                return Some(i);
            }
            i += 1;
        }
        proof {
            assert(all.subrange(n as int, n as int).len() == 0);
        }
        None
    }

    /// Registers `device` under `name`. A device already registered under
    /// that name is replaced.
    pub fn register_device(&mut self, name: &str, device: D)
        ensures
            rising(old(self).names()) ==> rising(final(self).names()),
            ({
                let i = Self::index_of(old(self).names(), name@);
                if 0 <= i < old(self).devices@.len() {
                    final(self).names() == old(self).names()
                        && final(self).devices@.len() == old(self).devices@.len()
                        && final(self).devices@[i].1 == device && forall|k: int|
                        0 <= k < old(self).devices@.len() && k != i ==> final(self).devices@[k]
                            == old(self).devices@[k]
                } else {
                    let at = Self::insert_at(old(self).names(), name@);
                    final(self).names() == old(self).names().insert(at, name@)
                        && final(self).devices@.len() == old(self).devices@.len() + 1
                        && final(self).devices@[at].1 == device && (forall|k: int|
                        0 <= k < at ==> final(self).devices@[k] == old(self).devices@[k])
                        && (forall|k: int|
                        at <= k < old(self).devices@.len() ==> final(self).devices@[k + 1] == old(self).devices@[k])
                }
            }),
    {
        let chars = chars_of(name);
        match self.find(chars.as_slice()) {
            Some(i) => {
                let ghost before = self.names();
                self.devices[i] = (chars, device);
                assert(self.names() =~= before);
            },
            None => {
                let n: usize = self.devices.len();
                let ghost all = self.names();
                let mut at: usize = 0;
                proof {
                    assert(all.subrange(0, n as int) =~= all);
                }
                while at < n && name_before(self.devices[at].0.as_slice(), chars.as_slice())
                    invariant
                        at <= n,
                        n == self.devices@.len(),
                        all == self.names(),
                        *self == *old(self),
                        chars@ == name@,
                        Self::insert_at(all, name@) == at + Self::insert_at(
                            all.subrange(at as int, n as int),
                            name@,
                        ),
                    decreases n - at,
                {
                    proof {
                        let rest = all.subrange(at as int, n as int);
                        assert(rest[0] == all[at as int]);
                        assert(rest.drop_first() =~= all.subrange(at + 1, n as int));
                    }
                    at += 1;
                }
                proof {
                    if at == n {
                        assert(all.subrange(n as int, n as int).len() == 0);
                    } else {
                        let rest = all.subrange(at as int, n as int);
                        assert(rest[0] == all[at as int]);
                        assert(all[at as int] == self.devices@[at as int].0@);
                    }
                }
                self.devices.insert(at, (chars, device));
                assert(self.names() =~= all.insert(at as int, name@));
                proof {
                    if rising(all) {
                        Self::lemma_absent(all, name@);
                        lemma_rising_with(all, name@);
                    }
                }
            },
        }
    }

    /// Takes the device named `name` out of the filesystem.
    pub fn unregister_device(&mut self, name: &str) -> (r: Option<D>)
        ensures
            rising(old(self).names()) ==> rising(final(self).names()),
            ({
                let i = Self::index_of(old(self).names(), name@);
                if 0 <= i < old(self).devices@.len() {
                    r == Some(old(self).devices@[i].1) && final(self).devices@ == old(self).devices@.remove(i)
                } else {
                    r is None && final(self).devices@ == old(self).devices@
                }
            }),
    {
        let chars = chars_of(name);
        match self.find(chars.as_slice()) {
            Some(i) => {
                let ghost all = self.names();
                let pair = self.devices.remove(i);
                proof {
                    assert(self.names() =~= all.remove(i as int));
                    if rising(all) {
                        lemma_rising_without(all, i as int);
                    }
                }
                Some(pair.1)
            },
            None => None,
        }
    }

    /// The size in bytes that a device reports: its number of sectors
    /// times 512, and 0 when it does not know the number.
    pub fn device_size(device: &D) -> (r: u64)
        ensures
            r == blocks_of(device.extent()) * 512,
    {
        let blocks: u64 = num_blocks(device);
        if blocks > 0xFFFF_FFFF {
            0
        } else {
            blocks * 512
        }
    }

    /// Whether reading through `handle` into a buffer that holds `room` may
    /// give `r`, leave the handle as `after` and the buffer holding `out`.
    pub open spec fn reads(
        &self,
        handle: BlockDeviceHandle,
        room: Seq<u8>,
        r: VfsResult<usize>,
        after: BlockDeviceHandle,
        out: Seq<u8>,
    ) -> bool {
        &&& out.len() == room.len()
        &&& after.device_name == handle.device_name
        &&& Self::index_of(self.names(), handle.device_name@) >= self.devices@.len()
            ==> r == Err::<usize, VfsError>(VfsError::NotFound)
        &&& r matches Ok(n) ==> {
            let device = self.devices@[Self::index_of(self.names(), handle.device_name@)].1;
            let block = (handle.position / 512) as u32;
            let offset = (handle.position % 512) as int;
            &&& handle.position / 512 <= u32::MAX
            &&& n == (if room.len() < 512 - offset {
                room.len() as int
            } else {
                512 - offset
            })
            &&& device.sectors().contains_key(block)
            &&& out.subrange(0, n as int) == device.sectors()[block].subrange(
                offset,
                offset + n,
            )
            &&& after.position == handle.position + n
        }
        &&& r is Err ==> after.position == handle.position && out == room
        &&& r matches Err(e) ==> e == VfsError::NotFound || e == VfsError::IoError
        &&& r == Err::<usize, VfsError>(VfsError::NotFound) ==> Self::index_of(
            self.names(),
            handle.device_name@,
        ) >= self.devices@.len()
        &&& handle.position / 512 > u32::MAX ==> r is Err
    }

    /// Reads from the device of `handle` at its position, up to the end of
    /// the sector the position lies in, and moves the position on.
    pub fn read(&self, handle: &mut BlockDeviceHandle, buf: &mut Vec<u8>) -> (r: VfsResult<usize>)
        ensures
            self.reads(*old(handle), old(buf)@, r, *final(handle), final(buf)@),
    {
        let name = chars_of(handle.device_name.as_str());
        let index = match self.find(name.as_slice()) {
            Some(i) => i,
            None => {
                return Err(VfsError::NotFound);
            },
        };
        let block: u64 = handle.position / 512;
        let offset: usize = (handle.position % 512) as usize;
        if block > 0xFFFF_FFFF {
            return Err(VfsError::IoError);
        }
        let mut sector = [0u8; 512];
        match self.devices[index].1.read_sector(block as u32, &mut sector) {
            Ok(()) => {},
            Err(_) => {
                return Err(VfsError::IoError);
            },
        }
        let available: usize = 512 - offset;
        let to_read: usize = if buf.len() < available {
            buf.len()
        } else {
            available
        };
        let n: usize = buf.len();
        let mut i: usize = 0;
        while i < to_read
            invariant
                i <= to_read,
                to_read <= n,
                offset + to_read <= 512,
                n == buf@.len(),
                buf@.len() == old(buf)@.len(),
                forall|k: int| 0 <= k < i ==> buf@[k] == sector@[offset + k],
            decreases to_read - i,
        {
            buf[i] = sector[offset + i];
            i += 1;
        }
        assert(buf@.subrange(0, to_read as int) =~= sector@.subrange(
            offset as int,
            offset + to_read,
        ));
        if handle.position > u64::MAX - 512 {
            return Err(VfsError::IoError);
        }
        handle.position = handle.position + to_read as u64;
        Ok(to_read)
    }

    /// Whether writing `bytes` through `handle` may give `r`, leave the handle
    /// as `after` and the devices as `next`.
    pub open spec fn writes(
        &self,
        handle: BlockDeviceHandle,
        bytes: Seq<u8>,
        r: VfsResult<usize>,
        after: BlockDeviceHandle,
        next: &Self,
    ) -> bool {
        &&& next.names() == self.names()
        &&& after.device_name == handle.device_name
        &&& Self::index_of(self.names(), handle.device_name@) >= self.devices@.len()
            ==> r == Err::<usize, VfsError>(VfsError::NotFound)
        &&& r matches Ok(n) ==> {
            let i = Self::index_of(self.names(), handle.device_name@);
            let block = (handle.position / 512) as u32;
            let offset = (handle.position % 512) as int;
            &&& handle.position / 512 <= u32::MAX
            &&& n == (if bytes.len() < 512 - offset {
                bytes.len() as int
            } else {
                512 - offset
            })
            &&& next.devices@[i].1.sectors().contains_key(block)
            &&& next.devices@[i].1.sectors()[block].subrange(offset, offset + n)
                == bytes.subrange(0, n as int)
            &&& after.position == handle.position + n
            &&& next.devices@.len() == self.devices@.len()
            &&& forall|k: int|
                0 <= k < self.devices@.len() && k != i ==> next.devices@[k] == self.devices@[k]
            &&& exists|sector: Seq<u8>| #[trigger]
                self.devices@[i].1.sectors().insert(block, sector) == next.devices@[i].1.sectors()
                    && sector.len() == 512 && (n < 512 ==> self.devices@[i].1.sectors().contains_key(
                    block,
                ) && forall|x: int|
                    0 <= x < 512 && !(offset <= x < offset + n) ==> sector[x]
                        == self.devices@[i].1.sectors()[block][x])
        }
        &&& r is Err ==> after.position == handle.position
        &&& r matches Err(e) ==> e == VfsError::NotFound || e == VfsError::IoError
        &&& r == Err::<usize, VfsError>(VfsError::NotFound) ==> Self::index_of(
            self.names(),
            handle.device_name@,
        ) >= self.devices@.len() && next.devices@ == self.devices@
        &&& handle.position / 512 > u32::MAX ==> r is Err && next.devices@ == self.devices@
    }

    /// Writes to the device of `handle` at its position, up to the end of
    /// the sector the position lies in, and moves the position on. The
    /// rest of the sector is kept.
    pub fn write(&mut self, handle: &mut BlockDeviceHandle, buf: &[u8]) -> (r: VfsResult<usize>)
        ensures
            old(self).writes(*old(handle), buf@, r, *final(handle), final(self)),
    {
        let name = chars_of(handle.device_name.as_str());
        let index = match self.find(name.as_slice()) {
            Some(i) => i,
            None => {
                return Err(VfsError::NotFound);
            },
        };
        let block: u64 = handle.position / 512;
        let offset: usize = (handle.position % 512) as usize;
        if block > 0xFFFF_FFFF || handle.position > u64::MAX - 512 {
            return Err(VfsError::IoError);
        }
        let ghost before = self.names();
        let mut sector = [0u8; 512];
        if offset != 0 || buf.len() < 512 {
            match self.devices[index].1.read_sector(block as u32, &mut sector) {
                Ok(()) => {},
                Err(_) => {
                    return Err(VfsError::IoError);
                },
            }
        }
        let available: usize = 512 - offset;
        let to_write: usize = if buf.len() < available {
            buf.len()
        } else {
            available
        };
        let ghost read = sector@;
        let ghost held = self.devices@;
        let mut i: usize = 0;
        while i < to_write
            invariant
                i <= to_write,
                to_write <= buf@.len(),
                offset + to_write <= 512,
                forall|k: int| 0 <= k < i ==> sector@[offset + k] == buf@[k],
                forall|x: int|
                    0 <= x < 512 && !(offset <= x < offset + i) ==> sector@[x] == read[x],
            decreases to_write - i,
        {
            sector[offset + i] = buf[i];
            i += 1;
        }
        let result = self.devices[index].1.write_sector(block as u32, &sector);
        assert(self.names() =~= before);
        proof {
            if result is Ok {
                assert(held[index as int].1.sectors().insert(block as u32, sector@)
                    == self.devices@[index as int].1.sectors());
                assert forall|k: int| 0 <= k < held.len() && k != index implies self.devices@[k]
                    == held[k] by {}
            }
        }
        match result {
            Ok(()) => {},
            Err(_) => {
                return Err(VfsError::IoError);
            },
        }
        assert(sector@.subrange(offset as int, offset + to_write) =~= buf@.subrange(
            0,
            to_write as int,
        ));
        handle.position = handle.position + to_write as u64;
        Ok(to_write)
    }

    /// Whether moving the position of `handle` by `pos` may give `r` and
    /// leave the handle as `after`. A position is counted from the start,
    /// from the position of the handle, or from the end of the device,
    /// which is the size that the device reports; one that is negative or
    /// beyond the signed range is refused, and a seek from the end of a
    /// device that is not registered finds nothing.
    pub open spec fn seeks(
        &self,
        handle: BlockDeviceHandle,
        pos: SeekFrom,
        r: VfsResult<usize>,
        after: BlockDeviceHandle,
    ) -> bool {
        let i = Self::index_of(self.names(), handle.device_name@);
        let size = blocks_of(self.devices@[i].1.extent()) * 512;
        &&& after.device_name == handle.device_name
        &&& after.position == match r {
            Ok(p) => p as u64,
            Err(_) => handle.position,
        }
        &&& r == match pos {
            SeekFrom::Start(_) => Self::sought(pos, 0, 0),
            SeekFrom::Current(_) => Self::sought(pos, handle.position as int, 0),
            SeekFrom::End(_) => if i >= self.devices@.len() {
                Err::<usize, VfsError>(VfsError::NotFound)
            } else {
                Self::sought(pos, handle.position as int, size)
            },
        }
    }

    /// The result of a seek by `pos` from the position `position` on a
    /// device of `size` bytes.
    pub open spec fn sought(pos: SeekFrom, position: int, size: int) -> VfsResult<usize> {
        if size > usize::MAX || position > usize::MAX || !seek_allowed(
            seek_goal(pos, position as usize, size as usize),
        ) {
            Err(VfsError::InvalidPath)
        } else {
            Ok(seek_goal(pos, position as usize, size as usize) as usize)
        }
    }

    /// Moves the position of `handle`. The end of a device is the size it
    /// reports.
    pub fn seek(&self, handle: &mut BlockDeviceHandle, pos: SeekFrom) -> (r: VfsResult<usize>)
        ensures
            self.seeks(*old(handle), pos, r, *final(handle)),
    {
        let size: usize = match pos {
            SeekFrom::End(_) => {
                let name = chars_of(handle.device_name.as_str());
                match self.find(name.as_slice()) {
                    Some(i) => {
                        let s = Self::device_size(&self.devices[i].1);
                        if s > usize::MAX as u64 {
                            return Err(VfsError::InvalidPath);
                        }
                        s as usize
                    },
                    None => {
                        return Err(VfsError::NotFound);
                    },
                }
            },
            _ => 0,
        };
        let from: usize = match pos {
            SeekFrom::Start(_) => 0,
            _ => {
                if handle.position > usize::MAX as u64 {
                    return Err(VfsError::InvalidPath);
                }
                handle.position as usize
            },
        };
        match seek_position(pos, from, size) {
            Ok(p) => {
                handle.position = p as u64;
                Ok(p)
            },
            Err(e) => Err(e),
        }
    }

    /// Whether asking for what is known of the device of `handle` may give
    /// `r`: a device of the size that it reports, which is not found when
    /// it is not registered.
    pub open spec fn handle_described(
        &self,
        handle: BlockDeviceHandle,
        r: VfsResult<Metadata>,
    ) -> bool {
        let i = Self::index_of(self.names(), handle.device_name@);
        let size = blocks_of(self.devices@[i].1.extent()) * 512;
        r == if i >= self.devices@.len() {
            Err::<Metadata, VfsError>(VfsError::NotFound)
        } else {
            Ok::<Metadata, VfsError>(
                Metadata {
                    file_type: FileType::Device,
                    size: if size > usize::MAX {
                        usize::MAX
                    } else {
                        size as usize
                    },
                },
            )
        }
    }

    /// What is known of the device of `handle`.
    pub fn handle_metadata(&self, handle: &BlockDeviceHandle) -> (r: VfsResult<Metadata>)
        ensures
            self.handle_described(*handle, r),
    {
        let name = chars_of(handle.device_name.as_str());
        match self.find(name.as_slice()) {
            Some(i) => {
                let s = Self::device_size(&self.devices[i].1);
                Ok(
                    Metadata {
                        file_type: FileType::Device,
                        size: if s > usize::MAX as u64 {
                            usize::MAX
                        } else {
                            s as usize
                        },
                    },
                )
            },
            None => Err(VfsError::NotFound),
        }
    }
}

/// The listing of devices named `names`.
pub open spec fn device_listing(names: Seq<Seq<char>>) -> Seq<DirEntryModel> {
    Seq::new(names.len(), |i: int| DirEntryModel { name: names[i], file_type: FileType::Device })
}

impl<D: BlockDevice> Filesystem for DevFs<D> {
    type Handle = BlockDeviceHandle;

    /// The devices stand in strictly rising order of their names.
    open spec fn wf(&self) -> bool {
        rising(self.names())
    }

    /// Whether opening `path` with `flags` may give `r` and leave the
    /// filesystem as `after`.
    open spec fn opens(
        &self,
        path: Seq<char>,
        flags: OpenFlags,
        r: VfsResult<BlockDeviceHandle>,
        after: &Self,
    ) -> bool {
        &&& after.devices@ == self.devices@
        &&& ({
            let name = device_name(path);
            if name.len() == 0 {
                r matches Err(e) && e == VfsError::IsADirectory
            } else if Self::index_of(self.names(), name) >= self.devices@.len() {
                r matches Err(e) && e == VfsError::NotFound
            } else {
                r matches Ok(h) && h.device_name@ == name && h.position == 0
            }
        })
    }

    /// Whether creating the directory `path` may give `r` and leave the
    /// filesystem as `after`.
    open spec fn makes_dir(&self, path: Seq<char>, r: VfsResult<()>, after: &Self) -> bool {
        &&& r == Err::<(), VfsError>(VfsError::PermissionDenied)
        &&& after.devices@ == self.devices@
    }

    /// Whether removing the file `path` may give `r` and leave the
    /// filesystem as `after`.
    open spec fn removes(&self, path: Seq<char>, r: VfsResult<()>, after: &Self) -> bool {
        &&& r == Err::<(), VfsError>(VfsError::PermissionDenied)
        &&& after.devices@ == self.devices@
    }

    /// Whether removing the directory `path` may give `r` and leave the
    /// filesystem as `after`.
    open spec fn removes_dir(&self, path: Seq<char>, r: VfsResult<()>, after: &Self) -> bool {
        &&& r == Err::<(), VfsError>(VfsError::PermissionDenied)
        &&& after.devices@ == self.devices@
    }

    /// Whether listing the directory `path` may give `r`.
    open spec fn lists(&self, path: Seq<char>, r: VfsResult<Vec<DirEntry>>) -> bool {
        &&& device_name(path).len() > 0 ==> (r matches Err(e) && e == VfsError::NotADirectory)
        &&& device_name(path).len() == 0 ==> (r matches Ok(list) && listing_view(list@)
            == device_listing(self.names()))
    }

    /// Whether asking for what is known of `path` may give `r`.
    open spec fn describes(&self, path: Seq<char>, r: VfsResult<Metadata>) -> bool {
        &&& device_name(path).len() == 0 ==> r == Ok::<Metadata, VfsError>(
            Metadata { file_type: FileType::Directory, size: 0 },
        )
        &&& device_name(path).len() > 0 && Self::index_of(self.names(), device_name(path))
            >= self.devices@.len() ==> r == Err::<Metadata, VfsError>(VfsError::NotFound)
        &&& device_name(path).len() > 0 && Self::index_of(self.names(), device_name(path))
            < self.devices@.len() ==> (r matches Ok(m) && m.file_type == FileType::Device)
    }

    /// Opens the device named by `path` without its leading `/`.
    fn open(&mut self, path: &str, flags: OpenFlags) -> (r: VfsResult<BlockDeviceHandle>) {
        let chars = chars_of(path);
        let name = strip_slashes(chars.as_slice());
        if name.len() == 0 {
            return Err(VfsError::IsADirectory);
        }
        if self.find(name.as_slice()).is_none() {
            return Err(VfsError::NotFound);
        }
        Ok(BlockDeviceHandle { device_name: string_of(name.as_slice()), position: 0 })
    }

    fn mkdir(&mut self, path: &str) -> (r: VfsResult<()>) {
        Err(VfsError::PermissionDenied)
    }

    fn remove(&mut self, path: &str) -> (r: VfsResult<()>) {
        Err(VfsError::PermissionDenied)
    }

    fn rmdir(&mut self, path: &str) -> (r: VfsResult<()>) {
        Err(VfsError::PermissionDenied)
    }

    /// Lists the devices in the order of their names. Only the root can
    /// be listed.
    fn readdir(&self, path: &str) -> (r: VfsResult<Vec<DirEntry>>) {
        let chars = chars_of(path);
        let name = strip_slashes(chars.as_slice());
        if name.len() > 0 {
            return Err(VfsError::NotADirectory);
        }
        let mut list: Vec<DirEntry> = Vec::new();
        let mut i: usize = 0;
        while i < self.devices.len()
            invariant
                i <= self.devices@.len(),
                list@.len() == i,
                forall|k: int|
                    0 <= k < i ==> (#[trigger] list@[k])@ == device_listing(self.names())[k],
            decreases self.devices@.len() - i,
        {
            let name = string_of(self.devices[i].0.as_slice());
            list.push(DirEntry { name, file_type: FileType::Device });
            i += 1;
        }
        assert(listing_view(list@) =~= device_listing(self.names()));
        Ok(list)
    }

    /// What is known of the root, which is a directory, and of a device.
    fn metadata(&self, path: &str) -> (r: VfsResult<Metadata>) {
        let chars = chars_of(path);
        let name = strip_slashes(chars.as_slice());
        if name.len() == 0 {
            return Ok(Metadata { file_type: FileType::Directory, size: 0 });
        }
        match self.find(name.as_slice()) {
            Some(i) => {
                let s = Self::device_size(&self.devices[i].1);
                Ok(
                    Metadata {
                        file_type: FileType::Device,
                        size: if s > usize::MAX as u64 {
                            usize::MAX
                        } else {
                            s as usize
                        },
                    },
                )
            },
            None => Err(VfsError::NotFound),
        }
    }
}

} // verus!

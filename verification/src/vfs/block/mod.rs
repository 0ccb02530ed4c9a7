//! Sector-addressed storage devices.

pub mod devfs;
pub mod partition;

use vstd::prelude::*;

verus! {

/// Number of bytes in one device sector.
pub const SECTOR_SIZE: usize = 512;

/// A device that stores fixed-size sectors addressed by a 32-bit number.
///
/// The contents are modelled as a map from sector number to the 512 bytes
/// stored there. An implementation may fail any request; what it must
/// guarantee is that a successful read returns the modelled bytes and that
/// a successful write changes exactly the addressed sector.
pub trait BlockDevice {
    /// The bytes held by each sector the device has. A device whose
    /// contents lie outside the program, such as a drive behind I/O ports,
    /// leaves this unstated: its contents are then some map that no proof
    /// can look into.
    closed spec fn sectors(&self) -> Map<u32, Seq<u8>> {
        arbitrary()
    }

    /// Reads sector `lba` into `buf`.
    fn read_sector(&self, lba: u32, buf: &mut [u8; 512]) -> (r: Result<(), &'static str>)
        ensures
            r is Ok ==> self.sectors().contains_key(lba) && final(buf)@ == self.sectors()[lba],
    ;

    /// The number of sectors that the device reports, when it knows it.
    /// Like the contents, a device outside the program leaves it unstated.
    closed spec fn extent(&self) -> Option<u32> {
        arbitrary()
    }

    /// Writes `buf` to sector `lba`.
    fn write_sector(&mut self, lba: u32, buf: &[u8; 512]) -> (r: Result<(), &'static str>)
        ensures
            r is Ok ==> final(self).sectors() == old(self).sectors().insert(lba, buf@),
            final(self).extent() == old(self).extent(),
    ;

    /// The number of sectors, when the device knows it.
    fn sector_count(&self) -> (r: Option<u32>)
        ensures
            r == self.extent(),
            r matches Some(n) ==> forall|l: u32| self.sectors().contains_key(l) ==> l < n,
    ;
}

/// The number of blocks that a device reports, zero when it does not know.
pub open spec fn blocks_of(extent: Option<u32>) -> int {
    match extent {
        Some(n) => n as int,
        None => 0,
    }
}

/// Size in bytes of one block of `device`.
pub fn block_size<D: BlockDevice>(device: &D) -> (r: usize)
    ensures
        r == 512,
{
    SECTOR_SIZE
}

/// Number of blocks of `device`, zero when the device does not know.
pub fn num_blocks<D: BlockDevice>(device: &D) -> (r: u64)
    ensures
        r == blocks_of(device.extent()),
        r == 0 || forall|l: u32| device.sectors().contains_key(l) ==> l < r,
{
    match device.sector_count() {
        Some(n) => n as u64,
        None => 0,
    }
}

/// A device held entirely in memory.
pub struct RamDisk {
    pub data: Vec<[u8; 512]>,
}

impl RamDisk {
    /// A device of `count` sectors, every byte zero.
    pub fn new(count: u32) -> (r: Self)
        ensures
            r.data@.len() == count,
            forall|l: u32| l < count ==> r.sectors()[l] == Seq::new(512, |i: int| 0u8),
    {
        let mut data: Vec<[u8; 512]> = Vec::new();
        let mut i: u32 = 0;
        while i < count
            invariant
                i <= count,
                data@.len() == i,
                forall|l: int| 0 <= l < i ==> (#[trigger] data@[l])@ == Seq::new(512, |k: int| 0u8),
            decreases count - i,
        {
            let z = [0u8; 512];
            assert(z@ =~= Seq::new(512, |k: int| 0u8));
            data.push(z);
            i += 1;
        }
        RamDisk { data }
    }
}

impl BlockDevice for RamDisk {
    open spec fn sectors(&self) -> Map<u32, Seq<u8>> {
        Map::new(|l: u32| (l as int) < self.data@.len(), |l: u32| self.data@[l as int]@)
    }

    fn read_sector(&self, lba: u32, buf: &mut [u8; 512]) -> (r: Result<(), &'static str>)
        ensures
            r is Ok <==> (lba as int) < self.data@.len(),
    {
        if (lba as usize) < self.data.len() {
            *buf = self.data[lba as usize];
            Ok(())
        } else {
            Err("sector out of bounds")
        }
    }

    fn write_sector(&mut self, lba: u32, buf: &[u8; 512]) -> (r: Result<(), &'static str>)
        ensures
            r is Ok <==> (lba as int) < old(self).data@.len(),
            r is Err ==> *final(self) == *old(self),
    {
        if (lba as usize) < self.data.len() {
            self.data[lba as usize] = *buf;
            assert(self.sectors() =~= old(self).sectors().insert(lba, buf@));
            Ok(())
        } else {
            Err("sector out of bounds")
        }
    }

    open spec fn extent(&self) -> Option<u32> {
        if self.data@.len() <= 0xFFFF_FFFF {
            Some(self.data@.len() as u32)
        } else {
            None
        }
    }

    fn sector_count(&self) -> (r: Option<u32>) {
        if self.data.len() <= 0xFFFF_FFFF {
            Some(self.data.len() as u32)
        } else {
            None
        }
    }
}

/// A contiguous range of sectors of another device, renumbered from zero.
pub struct Partition<D: BlockDevice> {
    pub device: D,
    pub start_lba: u32,
    pub sector_count: u32,
}

impl<D: BlockDevice> Partition<D> {
    /// The range of `sector_count` sectors of `device` that begins at `start_lba`.
    pub fn new(device: D, start_lba: u32, sector_count: u32) -> (r: Self)
        ensures
            r.device == device,
            r.start_lba == start_lba,
            r.sector_count == sector_count,
    {
        Self { device, start_lba, sector_count }
    }

    /// Number of the first sector of the range on the underlying device.
    pub fn start_lba(&self) -> (r: u32)
        ensures
            r == self.start_lba,
    {
        self.start_lba
    }

    /// Gives the underlying device back.
    pub fn into_inner(self) -> (r: D)
        ensures
            r == self.device,
    {
        self.device
    }

    /// Whether sector `lba` of the range exists and has an address on the
    /// underlying device.
    pub open spec fn in_range(&self, lba: u32) -> bool {
        lba < self.sector_count && self.start_lba + lba <= u32::MAX
    }
}

impl<D: BlockDevice> BlockDevice for Partition<D> {
    open spec fn sectors(&self) -> Map<u32, Seq<u8>> {
        Map::new(
            |l: u32|
                self.in_range(l) && self.device.sectors().contains_key(
                    (self.start_lba + l) as u32,
                ),
            |l: u32| self.device.sectors()[(self.start_lba + l) as u32],
        )
    }

    fn read_sector(&self, lba: u32, buf: &mut [u8; 512]) -> (r: Result<(), &'static str>)
        ensures
            !self.in_range(lba) ==> r is Err && final(buf)@ == old(buf)@,
            r is Ok ==> final(buf)@ == self.device.sectors()[(self.start_lba + lba) as u32],
    {
        if lba >= self.sector_count {
            return Err("sector out of bounds");
        }
        match self.start_lba.checked_add(lba) {
            Some(target) => self.device.read_sector(target, buf),
            None => Err("sector out of bounds"),
        }
    }

    fn write_sector(&mut self, lba: u32, buf: &[u8; 512]) -> (r: Result<(), &'static str>)
        ensures
            !old(self).in_range(lba) ==> r is Err && *final(self) == *old(self),
            final(self).start_lba == old(self).start_lba,
            final(self).sector_count == old(self).sector_count,
            r is Ok ==> final(self).device.sectors() == old(self).device.sectors().insert(
                (old(self).start_lba + lba) as u32,
                buf@,
            ),
    {
        if lba >= self.sector_count {
            return Err("sector out of bounds");
        }
        match self.start_lba.checked_add(lba) {
            Some(target) => {
                let r = self.device.write_sector(target, buf);
                proof {
                    assert(old(self).extent() == Some(old(self).sector_count));
                    assert(self.extent() == Some(self.sector_count));
                    if r is Ok {
                        assert(self.sectors() =~= old(self).sectors().insert(lba, buf@));
                    }
                }
                r
            },
            None => Err("sector out of bounds"),
        }
    }

    open spec fn extent(&self) -> Option<u32> {
        Some(self.sector_count)
    }

    fn sector_count(&self) -> (r: Option<u32>) {
        Some(self.sector_count)
    }
}

} // verus!

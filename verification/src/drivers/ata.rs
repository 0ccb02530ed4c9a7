//! ATA with programmed I/O: the register values of a one-sector transfer,
//! the meaning of the status register, and the packing of the data words.

use vstd::prelude::*;

verus! {

pub const ATA_PRIMARY_DATA: u16 = 0x1F0;

pub const ATA_PRIMARY_ERROR: u16 = 0x1F1;

pub const ATA_PRIMARY_SECTOR_COUNT: u16 = 0x1F2;

pub const ATA_PRIMARY_LBA_LOW: u16 = 0x1F3;

pub const ATA_PRIMARY_LBA_MID: u16 = 0x1F4;

pub const ATA_PRIMARY_LBA_HIGH: u16 = 0x1F5;

pub const ATA_PRIMARY_DRIVE_SELECT: u16 = 0x1F6;

pub const ATA_PRIMARY_COMMAND: u16 = 0x1F7;

pub const ATA_PRIMARY_STATUS: u16 = 0x1F7;

pub const ATA_CMD_READ_SECTORS: u8 = 0x20;

pub const ATA_CMD_WRITE_SECTORS: u8 = 0x30;

pub const ATA_CMD_IDENTIFY: u8 = 0xEC;

/// Status bit: the drive is busy.
pub const ATA_SR_BSY: u8 = 0x80;

pub const ATA_SR_DRDY: u8 = 0x40;

/// Status bit: the drive wants data moved.
pub const ATA_SR_DRQ: u8 = 0x08;

/// Status bit: the command failed.
pub const ATA_SR_ERR: u8 = 0x01;

/// Number of times the status register is read before a wait gives up.
pub const ATA_POLL_LIMIT: u32 = 1000000;

/// The values written to the registers before a command that moves one
/// sector.
#[derive(Debug, Clone, Copy, PartialEq, Eq, Structural)]
pub struct SectorCommand {
    /// Drive select: 0xE0 and the bits 24 to 27 of the sector number.
    pub drive_select: u8,
    /// Always one sector.
    pub sector_count: u8,
    pub lba_low: u8,
    pub lba_mid: u8,
    pub lba_high: u8,
    pub command: u8,
}

/// The register values of a transfer of sector `lba`.
pub open spec fn sector_command(lba: u32, command: u8) -> SectorCommand {
    SectorCommand {
        drive_select: (224 + (lba as int / 0x100_0000) % 16) as u8,
        sector_count: 1,
        lba_low: (lba as int % 256) as u8,
        lba_mid: ((lba as int / 256) % 256) as u8,
        lba_high: ((lba as int / 65536) % 256) as u8,
        command,
    }
}

/// The register values to read sector `lba`.
pub fn read_command(lba: u32) -> (r: SectorCommand)
    ensures
        r == sector_command(lba, ATA_CMD_READ_SECTORS),
{
    SectorCommand {
        drive_select: (224 + (lba / 0x100_0000) % 16) as u8,
        sector_count: 1,
        lba_low: (lba % 256) as u8,
        lba_mid: ((lba / 256) % 256) as u8,
        lba_high: ((lba / 65536) % 256) as u8,
        command: ATA_CMD_READ_SECTORS,
    }
}

/// The register values to write sector `lba`.
pub fn write_command(lba: u32) -> (r: SectorCommand)
    ensures
        r == sector_command(lba, ATA_CMD_WRITE_SECTORS),
{
    SectorCommand {
        drive_select: (224 + (lba / 0x100_0000) % 16) as u8,
        sector_count: 1,
        lba_low: (lba % 256) as u8,
        lba_mid: ((lba / 256) % 256) as u8,
        lba_high: ((lba / 65536) % 256) as u8,
        command: ATA_CMD_WRITE_SECTORS,
    }
}

/// What a wait for data makes of a status.
#[derive(Debug, Clone, Copy, PartialEq, Eq, Structural)]
pub enum DataWait {
    /// The drive wants data moved.
    Ready,
    /// The command failed.
    Failed,
    /// Neither yet: the status is read again.
    Again,
}

/// Whether a status says that the drive is no longer busy.
pub fn is_ready(status: u8) -> (r: bool)
    ensures
        r == (status & ATA_SR_BSY == 0),
{
    status & ATA_SR_BSY == 0
}

/// What a wait for data makes of a status: a request for data comes
/// before an error.
pub fn data_wait(status: u8) -> (r: DataWait)
    ensures
        r == if status & ATA_SR_DRQ != 0 {
            DataWait::Ready
        } else if status & ATA_SR_ERR != 0 {
            DataWait::Failed
        } else {
            DataWait::Again
        },
{
    if status & ATA_SR_DRQ != 0 {
        DataWait::Ready
    } else if status & ATA_SR_ERR != 0 {
        DataWait::Failed
    } else {
        DataWait::Again
    }
}

/// Stores data word number `index` of a sector: the low byte first.
pub fn store_word(buffer: &mut [u8; 512], index: usize, word: u16)
    requires
        index < 256,
    ensures
        final(buffer)@ == old(buffer)@.update(2 * index as int, (word as int % 256) as u8).update(
            2 * index + 1,
            (word as int / 256) as u8,
        ),
{
    buffer[index * 2] = (word % 256) as u8;
    buffer[index * 2 + 1] = (word / 256) as u8;
}

/// Data word number `index` of a sector.
pub fn load_word(buffer: &[u8; 512], index: usize) -> (r: u16)
    requires
        index < 256,
    ensures
        r as int == buffer@[2 * index as int] as int + 256 * (buffer@[2 * index + 1] as int),
{
    buffer[index * 2] as u16 + 256 * (buffer[index * 2 + 1] as u16)
}

} // verus!

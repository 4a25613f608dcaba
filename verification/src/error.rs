//! The three ways an operation of this crate can fail.
use vstd::prelude::*;

verus! {

/// A block transfer or a card command did not complete.
#[derive(Clone, Copy, Debug, PartialEq, Eq, Structural)]
pub enum TransportError {
    /// The card did not answer in time.
    Timeout,
    /// The serial bus reported a fault.
    Bus,
    /// The card answered, but not with what the command calls for.
    Protocol,
}

/// The volume's structures on the card do not form a usable file system.
#[derive(Clone, Copy, Debug, PartialEq, Eq, Structural)]
pub enum VolumeError {
    /// The sector does not end in the boot signature `55 AA`.
    NoSignature,
    /// The first partition is not marked as FAT16.
    NoPartition,
    /// The file-system parameters contradict each other or cannot be used.
    BadGeometry,
    /// The volume reaches beyond the last sector of the card.
    BeyondCard,
    /// A cluster chain leaves the volume, meets a free or reserved cluster,
    /// or does not end.
    CorruptChain,
    /// A file is recorded as longer than its cluster chain can hold.
    BadLength,
    /// The name cannot be stored as an 8.3 directory name.
    BadName,
}

/// The volume has no room left for what was asked.
#[derive(Clone, Copy, Debug, PartialEq, Eq, Structural)]
pub enum CapacityError {
    /// Fewer clusters are free than the data needs.
    NoFreeCluster,
    /// Every slot of the root directory is in use.
    DirectoryFull,
    /// The file would grow beyond what a directory entry can record.
    FileTooLarge,
}

/// Any failure of a volume or file operation.
#[derive(Clone, Copy, Debug, PartialEq, Eq, Structural)]
pub enum FsError {
    Transport(TransportError),
    Volume(VolumeError),
    Capacity(CapacityError),
}

} // verus!

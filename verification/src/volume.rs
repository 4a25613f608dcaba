//! Finding the FAT16 volume on a card: the partition table, then the
//! volume's boot sector.
use vstd::prelude::*;
use crate::block::{le16, le32, Block};
use crate::bus::{image_wf, CardBus};
use crate::error::{FsError, VolumeError};
use crate::transport::BlockTransport;

verus! {

/// Fewest clusters a FAT16 volume has.
pub const MIN_CLUSTERS: u32 = 4085;

/// One more than the most clusters a FAT16 volume has.
pub const END_CLUSTERS: u32 = 65525;

/// Where a mounted volume keeps its structures. Sector numbers count from
/// the start of the card.
#[derive(Clone, Copy, Debug, PartialEq, Eq, Structural)]
pub struct Volume {
    /// Cluster size in sectors.
    pub sectors_per_cluster: u8,
    /// First sector of the allocation table.
    pub fat_start: u32,
    /// Sectors in one copy of the allocation table.
    pub fat_sectors: u32,
    /// First sector of the root directory.
    pub root_start: u32,
    /// Slots in the root directory.
    pub root_entries: u32,
    /// First sector of cluster 2.
    pub data_start: u32,
    /// Number of data clusters; they are numbered from 2.
    pub cluster_count: u32,
}

impl Volume {
    /// Sectors that the root directory takes.
    pub open spec fn root_sectors(&self) -> int {
        (self.root_entries + 15) / 16
    }

    /// One past the last sector of the volume.
    pub open spec fn end(&self) -> int {
        self.data_start + self.cluster_count * self.sectors_per_cluster
    }

    /// Bytes in a cluster.
    pub open spec fn cluster_bytes(&self) -> int {
        self.sectors_per_cluster * 512
    }

    /// The regions follow each other, the table has an entry for every
    /// cluster, and the cluster count is one of FAT16.
    pub open spec fn wf(&self) -> bool {
        &&& self.sectors_per_cluster > 0
        &&& self.fat_sectors > 0
        &&& self.fat_start + self.fat_sectors <= self.root_start
        &&& 0 < self.root_entries <= 65535
        &&& self.root_start + self.root_sectors() == self.data_start
        &&& MIN_CLUSTERS <= self.cluster_count < END_CLUSTERS
        &&& self.cluster_count + 2 <= self.fat_sectors * 256
        &&& self.end() <= u32::MAX
    }

    /// The volume is well formed and lies within the card's sectors.
    pub open spec fn lies_on(&self, image: Seq<Seq<u8>>) -> bool {
        &&& self.wf()
        &&& image_wf(image)
        &&& self.end() <= image.len()
    }

    /// Bytes in a cluster.
    pub fn cluster_size(&self) -> (n: u32)
        ensures
            n == self.cluster_bytes(),
    {
        (self.sectors_per_cluster as u32) * 512
    }
}

/// The sector ends in the boot signature.
pub open spec fn has_signature(sector: Seq<u8>) -> bool {
    sector[510] == 0x55 && sector[511] == 0xAA
}

/// The partition type byte of the first partition-table entry.
pub open spec fn partition_type(sector: Seq<u8>) -> u8 {
    sector[450]
}

/// Whether a partition type byte marks a FAT16 partition.
pub open spec fn is_fat16_type(t: u8) -> bool {
    t == 0x04 || t == 0x06 || t == 0x0E
}

/// First sector and sector count of the first partition, as the partition
/// table in `sector` gives them.
pub open spec fn first_partition(sector: Seq<u8>) -> Result<(int, int), VolumeError> {
    if !has_signature(sector) {
        Err(VolumeError::NoSignature)
    } else if !is_fat16_type(partition_type(sector)) {
        Err(VolumeError::NoPartition)
    } else {
        Ok((le32(sector, 454), le32(sector, 458)))
    }
}

/// Total sectors that a boot sector declares: the 16-bit field, or the
/// 32-bit field where that is zero.
pub open spec fn declared_sectors(sector: Seq<u8>) -> int {
    if le16(sector, 19) != 0 {
        le16(sector, 19)
    } else {
        le32(sector, 32)
    }
}

/// Sectors before the first data cluster, counted from the boot sector.
pub open spec fn leading_sectors(sector: Seq<u8>) -> int {
    le16(sector, 14) + sector[16] * le16(sector, 22) + (le16(sector, 17) + 15) / 16
}

/// Clusters that fit behind the leading sectors.
pub open spec fn declared_clusters(sector: Seq<u8>) -> int {
    (declared_sectors(sector) - leading_sectors(sector)) / (sector[13] as int)
}

/// The parameters of a boot sector agree with each other and describe a
/// FAT16 volume of 512-byte sectors that starts at sector `base`.
pub open spec fn geometry_ok(sector: Seq<u8>, base: int) -> bool {
    &&& le16(sector, 11) == 512
    &&& sector[13] != 0
    &&& le16(sector, 14) != 0
    &&& sector[16] != 0
    &&& le16(sector, 17) != 0
    &&& le16(sector, 22) != 0
    &&& leading_sectors(sector) <= declared_sectors(sector)
    &&& MIN_CLUSTERS <= declared_clusters(sector) < END_CLUSTERS
    &&& declared_clusters(sector) + 2 <= le16(sector, 22) * 256
    &&& base + declared_sectors(sector) <= u32::MAX
}

/// The volume that a boot sector at sector `base` describes.
pub open spec fn described_volume(sector: Seq<u8>, base: int) -> Volume {
    let fat_start = base + le16(sector, 14);
    let root_start = fat_start + sector[16] * le16(sector, 22);
    Volume {
        sectors_per_cluster: sector[13],
        fat_start: fat_start as u32,
        fat_sectors: le16(sector, 22) as u32,
        root_start: root_start as u32,
        root_entries: le16(sector, 17) as u32,
        data_start: (root_start + (le16(sector, 17) + 15) / 16) as u32,
        cluster_count: declared_clusters(sector) as u32,
    }
}

/// What parsing the boot sector at sector `base` gives.
pub open spec fn boot_sector_volume(sector: Seq<u8>, base: int) -> Result<Volume, VolumeError> {
    if !has_signature(sector) {
        Err(VolumeError::NoSignature)
    } else if !geometry_ok(sector, base) {
        Err(VolumeError::BadGeometry)
    } else {
        Ok(described_volume(sector, base))
    }
}

/// What mounting a card with these sectors gives, as far as the sectors
/// decide it.
pub open spec fn volume_on(image: Seq<Seq<u8>>) -> Result<Volume, VolumeError> {
    if image.len() == 0 {
        Err(VolumeError::BeyondCard)
    } else {
        match first_partition(image[0]) {
            Err(e) => Err(e),
            Ok((start, count)) => {
                if start >= image.len() {
                    Err(VolumeError::BeyondCard)
                } else {
                    match boot_sector_volume(image[start], start) {
                        Err(e) => Err(e),
                        Ok(v) => if declared_sectors(image[start]) > count {
                            Err(VolumeError::BadGeometry)
                        } else if v.end() > image.len() {
                            Err(VolumeError::BeyondCard)
                        } else {
                            Ok(v)
                        },
                    }
                }
            },
        }
    }
}

/// A product of bounded factors is bounded by the product of the bounds.
proof fn lemma_product_bound(a: int, b: int, amax: int, bmax: int)
    by (nonlinear_arith)
    requires
        0 <= a <= amax,
        0 <= b <= bmax,
    ensures
        0 <= a * b <= amax * bmax,
{
}

/// Whole clusters cut from a run of sectors take no more than the run.
proof fn lemma_clusters_fit(sectors: int, per: int)
    by (nonlinear_arith)
    requires
        0 <= sectors,
        0 < per,
    ensures
        0 <= (sectors / per) * per <= sectors,
        0 <= sectors / per <= sectors,
{
}

/// A volume described by a boot sector with sound parameters is well formed,
/// its cluster size and table offset are the encoded ones, and it ends where
/// the declared sectors end or before.
pub proof fn lemma_described_volume(sector: Seq<u8>, base: int)
    requires
        sector.len() == 512,
        0 <= base,
        geometry_ok(sector, base),
    ensures
        described_volume(sector, base).wf(),
        described_volume(sector, base).sectors_per_cluster == sector[13],
        described_volume(sector, base).sectors_per_cluster != 0,
        described_volume(sector, base).fat_start == base + le16(sector, 14),
        described_volume(sector, base).end() <= base + declared_sectors(sector),
{
    let v = described_volume(sector, base);
    let tables = sector[16] * le16(sector, 22);
    let lead = leading_sectors(sector);
    let total = declared_sectors(sector);
    let per = sector[13] as int;
    lemma_product_bound(sector[16] as int, le16(sector, 22), 255, 65535);
    lemma_clusters_fit(total - lead, per);
    assert(0 <= tables <= 255 * 65535);
    assert(tables >= le16(sector, 22)) by (nonlinear_arith)
        requires
            tables == sector[16] * le16(sector, 22),
            sector[16] >= 1,
            le16(sector, 22) >= 0,
    ;
    assert(v.fat_start == base + le16(sector, 14));
    assert(v.root_start == v.fat_start + tables);
    assert(v.data_start == base + lead);
    assert(v.cluster_count == (total - lead) / per);
    assert(v.cluster_count * v.sectors_per_cluster == ((total - lead) / per) * per);
    assert(v.fat_sectors * 256 == le16(sector, 22) * 256);
}

/// Reads the first partition's place from the partition table.
pub fn parse_partition_table(sector: &Block) -> (r: Result<(u32, u32), VolumeError>)
    ensures
        r matches Ok(p) ==> first_partition(sector@) == Ok::<(int, int), VolumeError>(
            (p.0 as int, p.1 as int),
        ),
        r matches Err(e) ==> first_partition(sector@) == Err::<(int, int), VolumeError>(e),
{
    if sector.get(510) != 0x55 || sector.get(511) != 0xAA {
        return Err(VolumeError::NoSignature);
    }
    let t = sector.get(450);
    if !(t == 0x04 || t == 0x06 || t == 0x0E) {
        return Err(VolumeError::NoPartition);
    }
    Ok((sector.get_le32(454), sector.get_le32(458)))
}

/// Parses the boot sector of a volume that starts at sector `base`.
///
/// Fails with `NoSignature` where the sector does not end in `55 AA`, and
/// with `BadGeometry` where its parameters are not those of a FAT16 volume.
/// The volume returned has the encoded cluster size, never zero, and its
/// allocation table starts the encoded number of sectors behind `base`.
pub fn parse_boot_sector(sector: &Block, base: u32) -> (r: Result<Volume, VolumeError>)
    ensures
        r == boot_sector_volume(sector@, base as int),
        r matches Ok(v) ==> v.wf() && v.sectors_per_cluster == sector@[13] && v.sectors_per_cluster
            != 0 && v.fat_start == base + le16(sector@, 14),
{
    if sector.get(510) != 0x55 || sector.get(511) != 0xAA {
        return Err(VolumeError::NoSignature);
    }
    let bytes_per_sector = sector.get_le16(11);
    let per_cluster = sector.get(13);
    let reserved = sector.get_le16(14);
    let copies = sector.get(16);
    let root_entries = sector.get_le16(17);
    let total16 = sector.get_le16(19);
    let fat_sectors = sector.get_le16(22);
    let total32 = sector.get_le32(32);
    if bytes_per_sector != 512 || per_cluster == 0 || reserved == 0 || copies == 0 || root_entries
        == 0 || fat_sectors == 0 {
        return Err(VolumeError::BadGeometry);
    }
    let total: u32 = if total16 != 0 {
        total16 as u32
    } else {
        total32
    };
    proof {
        lemma_product_bound(copies as int, fat_sectors as int, 255, 65535);
    }
    let tables: u32 = (copies as u32) * (fat_sectors as u32);
    let root_sectors: u32 = (root_entries as u32 + 15) / 16;
    let leading: u32 = reserved as u32 + tables + root_sectors;
    if leading > total {
        return Err(VolumeError::BadGeometry);
    }
    let clusters: u32 = (total - leading) / (per_cluster as u32);
    if clusters < MIN_CLUSTERS || clusters >= END_CLUSTERS {
        return Err(VolumeError::BadGeometry);
    }
    if clusters + 2 > (fat_sectors as u32) * 256 {
        return Err(VolumeError::BadGeometry);
    }
    if total > u32::MAX - base {
        return Err(VolumeError::BadGeometry);
    }
    proof {
        lemma_described_volume(sector@, base as int);
    }
    let fat_start: u32 = base + reserved as u32;
    let root_start: u32 = fat_start + tables;
    Ok(
        Volume {
            sectors_per_cluster: per_cluster,
            fat_start,
            fat_sectors: fat_sectors as u32,
            root_start,
            root_entries: root_entries as u32,
            data_start: root_start + root_sectors,
            cluster_count: clusters,
        },
    )
}

/// What `mount` may return on a card with these sectors: the volume or the
/// volume error that the sectors decide, or a transport error.
pub open spec fn mount_result(image: Seq<Seq<u8>>, r: Result<Volume, FsError>) -> bool {
    match r {
        Ok(v) => volume_on(image) == Ok::<Volume, VolumeError>(v),
        Err(FsError::Volume(e)) => volume_on(image) == Err::<Volume, VolumeError>(e),
        Err(FsError::Transport(_)) => true,
        Err(FsError::Capacity(_)) => false,
    }
}

/// The volume's cluster size and table offset are those that the boot
/// sector of the card's first partition encodes.
pub open spec fn encoded_in(image: Seq<Seq<u8>>, v: Volume) -> bool {
    first_partition(image[0]) matches Ok(p) && 0 <= p.0 < image.len() && v.sectors_per_cluster
        == image[p.0][13] && v.fat_start == p.0 + le16(image[p.0], 14)
}

/// A mounted volume is well formed, lies on the card, and has the cluster
/// size, never zero, and the table offset that its boot sector encodes.
pub proof fn lemma_volume_on(image: Seq<Seq<u8>>, v: Volume)
    requires
        image_wf(image),
        volume_on(image) == Ok::<Volume, VolumeError>(v),
    ensures
        v.lies_on(image),
        v.sectors_per_cluster != 0,
        encoded_in(image, v),
{
    let p = first_partition(image[0])->Ok_0;
    lemma_described_volume(image[p.0], p.0);
}

/// Finds the volume of the card's first partition.
///
/// Reads the partition table and the volume's boot sector, and changes no
/// sector. The result is the one that the sectors decide; only a card that
/// fails a command makes the call fail otherwise.
pub fn mount<B: CardBus>(transport: &mut BlockTransport<B>) -> (r: Result<Volume, FsError>)
    requires
        old(transport).wf(),
    ensures
        final(transport).wf(),
        final(transport).image() == old(transport).image(),
        mount_result(old(transport).image(), r),
        r matches Ok(v) ==> v.lies_on(old(transport).image()) && v.sectors_per_cluster != 0
            && encoded_in(old(transport).image(), v),
        r matches Err(FsError::Transport(_)) ==> !old(transport).reliable(),
        old(transport).reliable() ==> final(transport).reliable(),
{
    let capacity = match transport.capacity() {
        Ok(n) => n,
        Err(e) => {
            return Err(FsError::Transport(e));
        },
    };
    if capacity == 0 {
        return Err(FsError::Volume(VolumeError::BeyondCard));
    }
    let table = match transport.read_block(0) {
        Ok(b) => b,
        Err(e) => {
            return Err(FsError::Transport(e));
        },
    };
    let (start, count) = match parse_partition_table(&table) {
        Ok(p) => p,
        Err(e) => {
            return Err(FsError::Volume(e));
        },
    };
    if start >= capacity {
        return Err(FsError::Volume(VolumeError::BeyondCard));
    }
    let boot = match transport.read_block(start) {
        Ok(b) => b,
        Err(e) => {
            return Err(FsError::Transport(e));
        },
    };
    let volume = match parse_boot_sector(&boot, start) {
        Ok(v) => v,
        Err(e) => {
            return Err(FsError::Volume(e));
        },
    };
    let total: u32 = if boot.get_le16(19) != 0 {
        boot.get_le16(19) as u32
    } else {
        boot.get_le32(32)
    };
    if total > count {
        return Err(FsError::Volume(VolumeError::BadGeometry));
    }
    proof {
        lemma_described_volume(boot@, start as int);
    }
    let end: u32 = volume.data_start + volume.cluster_count * (volume.sectors_per_cluster as u32);
    if end > capacity {
        return Err(FsError::Volume(VolumeError::BeyondCard));
    }
    proof {
        lemma_volume_on(transport.image(), volume);
    }
    Ok(volume)
}

} // verus!

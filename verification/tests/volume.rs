use sdmmc_log::block::Block;
use sdmmc_log::error::{FsError, TransportError, VolumeError};
use sdmmc_log::memcard::MemCard;
use sdmmc_log::transport::BlockTransport;
use sdmmc_log::volume::{mount, parse_boot_sector, parse_partition_table, Volume};

fn put16(block: &mut Block, at: usize, v: u16) {
    block.data[at] = (v & 0xFF) as u8;
    block.data[at + 1] = (v >> 8) as u8;
}

fn put32(block: &mut Block, at: usize, v: u32) {
    put16(block, at, (v & 0xFFFF) as u16);
    put16(block, at + 2, (v >> 16) as u16);
}

/// A partition table whose first entry is a FAT16 partition.
fn table(start: u32, count: u32) -> Block {
    let mut block = Block::zeroed();
    block.data[450] = 0x06;
    put32(&mut block, 454, start);
    put32(&mut block, 458, count);
    block.data[510] = 0x55;
    block.data[511] = 0xAA;
    block
}

/// A boot sector: 1 reserved sector, 2 tables of 17 sectors, 16 root
/// slots, `total` sectors in all.
fn boot(per_cluster: u8, total: u32) -> Block {
    let mut block = Block::zeroed();
    put16(&mut block, 11, 512);
    block.data[13] = per_cluster;
    put16(&mut block, 14, 1);
    block.data[16] = 2;
    put16(&mut block, 17, 16);
    if total < 65536 {
        put16(&mut block, 19, total as u16);
    } else {
        put32(&mut block, 32, total);
    }
    put16(&mut block, 22, 17);
    block.data[510] = 0x55;
    block.data[511] = 0xAA;
    block
}

fn card(start: u32, boot_sector: &Block, sectors: u32) -> BlockTransport<MemCard> {
    let mut card = MemCard::new(sectors);
    assert!(card.poke(0, &table(start, 4136)));
    assert!(card.poke(start, boot_sector));
    BlockTransport::new(card)
}

fn expected(start: u32, per_cluster: u8) -> Volume {
    Volume {
        sectors_per_cluster: per_cluster,
        fat_start: start + 1,
        fat_sectors: 17,
        root_start: start + 35,
        root_entries: 16,
        data_start: start + 36,
        cluster_count: 4100,
    }
}

#[test]
fn mount_reads_the_encoded_geometry() {
    let mut transport = card(1, &boot(1, 4136), 4137);
    assert_eq!(mount(&mut transport), Ok(expected(1, 1)));
    let mut transport = card(63, &boot(1, 4136), 63 + 4136);
    let volume = mount(&mut transport).unwrap();
    assert_eq!(volume, expected(63, 1));
    assert_eq!(volume.cluster_size(), 512);
}

#[test]
fn mounting_again_gives_the_same_volume() {
    let mut transport = card(1, &boot(1, 4136), 4137);
    let before: Vec<Block> = (0..40).map(|i| transport.bus.peek(i).unwrap()).collect();
    let first = mount(&mut transport).unwrap();
    let second = mount(&mut transport).unwrap();
    transport.release();
    let third = mount(&mut transport).unwrap();
    assert_eq!(first, second);
    assert_eq!(first, third);
    let after: Vec<Block> = (0..40).map(|i| transport.bus.peek(i).unwrap()).collect();
    assert_eq!(before, after);
}

#[test]
fn the_boot_sector_decides_cluster_size_and_table_offset() {
    let mut sector = boot(4, 36 + 4 * 5000);
    put16(&mut sector, 14, 7);
    put16(&mut sector, 22, 20);
    put16(&mut sector, 19, (48 + 4 * 5000) as u16);
    let volume = parse_boot_sector(&sector, 100).unwrap();
    assert_eq!(volume.sectors_per_cluster, 4);
    assert_eq!(volume.fat_start, 107);
    assert_eq!(volume.fat_sectors, 20);
    assert_eq!(volume.root_start, 107 + 40);
    assert_eq!(volume.data_start, 107 + 41);
    assert_eq!(volume.cluster_count, 5000);
    assert_eq!(volume.cluster_size(), 2048);
}

#[test]
fn the_wide_sector_count_is_used_where_the_narrow_one_is_zero() {
    let sector = boot(16, 36 + 16 * 4096);
    let volume = parse_boot_sector(&sector, 0).unwrap();
    assert_eq!(volume.cluster_count, 4096);
    assert_eq!(volume.sectors_per_cluster, 16);
}

#[test]
fn a_partial_last_root_sector_counts_as_a_sector() {
    let mut sector = boot(1, 4137);
    put16(&mut sector, 17, 17);
    let volume = parse_boot_sector(&sector, 0).unwrap();
    assert_eq!(volume.root_entries, 17);
    assert_eq!(volume.data_start, volume.root_start + 2);
    assert_eq!(volume.cluster_count, 4100);
}

#[test]
fn a_sector_without_signature_is_refused() {
    let mut sector = boot(1, 4136);
    sector.data[511] = 0;
    assert_eq!(parse_boot_sector(&sector, 1), Err(VolumeError::NoSignature));
    let mut sector = boot(1, 4136);
    sector.data[510] = 0xAA;
    assert_eq!(parse_boot_sector(&sector, 1), Err(VolumeError::NoSignature));
    let mut first = table(1, 4136);
    first.data[510] = 0;
    assert_eq!(parse_partition_table(&first), Err(VolumeError::NoSignature));
    let mut transport = card(1, &sector, 4137);
    assert_eq!(mount(&mut transport), Err(FsError::Volume(VolumeError::NoSignature)));
}

#[test]
fn a_zero_cluster_size_is_refused() {
    let sector = boot(0, 4136);
    assert_eq!(parse_boot_sector(&sector, 1), Err(VolumeError::BadGeometry));
    let mut transport = card(1, &sector, 4137);
    assert_eq!(mount(&mut transport), Err(FsError::Volume(VolumeError::BadGeometry)));
}

#[test]
fn contradicting_parameters_are_refused() {
    let good = boot(1, 4136);
    assert!(parse_boot_sector(&good, 1).is_ok());
    let mut sector = boot(1, 4136);
    put16(&mut sector, 11, 1024);
    assert_eq!(parse_boot_sector(&sector, 1), Err(VolumeError::BadGeometry));
    for at in [14usize, 17, 22] {
        let mut sector = boot(1, 4136);
        put16(&mut sector, at, 0);
        assert_eq!(parse_boot_sector(&sector, 1), Err(VolumeError::BadGeometry));
    }
    let mut sector = boot(1, 4136);
    sector.data[16] = 0;
    assert_eq!(parse_boot_sector(&sector, 1), Err(VolumeError::BadGeometry));
    assert_eq!(parse_boot_sector(&boot(1, 30), 1), Err(VolumeError::BadGeometry));
    assert_eq!(parse_boot_sector(&boot(1, 36 + 4084), 1), Err(VolumeError::BadGeometry));
    assert!(parse_boot_sector(&boot(1, 36 + 4085), 1).is_ok());
    let mut sector = boot(1, 36 + 4351);
    assert_eq!(parse_boot_sector(&sector, 1), Err(VolumeError::BadGeometry));
    put16(&mut sector, 19, 36 + 4350);
    assert_eq!(parse_boot_sector(&sector, 1).unwrap().cluster_count, 4350);
    assert_eq!(parse_boot_sector(&good, u32::MAX - 4135), Err(VolumeError::BadGeometry));
    assert!(parse_boot_sector(&good, u32::MAX - 4136).is_ok());
}

#[test]
fn too_many_clusters_for_fat16_are_refused() {
    let mut sector = boot(1, 0);
    put16(&mut sector, 22, 256);
    put16(&mut sector, 19, 0);
    put32(&mut sector, 32, 1 + 512 + 1 + 65525);
    assert_eq!(parse_boot_sector(&sector, 0), Err(VolumeError::BadGeometry));
    put32(&mut sector, 32, 1 + 512 + 1 + 65524);
    assert_eq!(parse_boot_sector(&sector, 0).unwrap().cluster_count, 65524);
}

#[test]
fn a_partition_of_another_kind_is_refused() {
    for kind in [0x00u8, 0x01, 0x05, 0x07, 0x0B, 0x0C, 0x83] {
        let mut first = table(1, 4136);
        first.data[450] = kind;
        assert_eq!(parse_partition_table(&first), Err(VolumeError::NoPartition));
    }
    for kind in [0x04u8, 0x06, 0x0E] {
        let mut first = table(9, 77);
        first.data[450] = kind;
        assert_eq!(parse_partition_table(&first), Ok((9, 77)));
    }
    let mut card = MemCard::new(4137);
    let mut first = table(1, 4136);
    first.data[450] = 0x0B;
    assert!(card.poke(0, &first));
    assert!(card.poke(1, &boot(1, 4136)));
    let mut transport = BlockTransport::new(card);
    assert_eq!(mount(&mut transport), Err(FsError::Volume(VolumeError::NoPartition)));
}

#[test]
fn a_volume_beyond_the_card_is_refused() {
    let mut transport = card(1, &boot(1, 4136), 4136);
    assert_eq!(mount(&mut transport), Err(FsError::Volume(VolumeError::BeyondCard)));
    let mut transport = BlockTransport::new(MemCard::new(0));
    assert_eq!(mount(&mut transport), Err(FsError::Volume(VolumeError::BeyondCard)));
    let mut small = MemCard::new(8);
    assert!(small.poke(0, &table(8, 4136)));
    let mut transport = BlockTransport::new(small);
    assert_eq!(mount(&mut transport), Err(FsError::Volume(VolumeError::BeyondCard)));
}

#[test]
fn a_volume_larger_than_its_partition_is_refused() {
    let mut card = MemCard::new(4137);
    assert!(card.poke(0, &table(1, 4135)));
    assert!(card.poke(1, &boot(1, 4136)));
    let mut transport = BlockTransport::new(card);
    assert_eq!(mount(&mut transport), Err(FsError::Volume(VolumeError::BadGeometry)));
}

#[test]
fn a_card_that_fails_a_command_fails_the_mount() {
    for after in 0..5 {
        let mut transport = card(1, &boot(1, 4136), 4137);
        transport.bus.arm_fault(after);
        assert_eq!(mount(&mut transport), Err(FsError::Transport(TransportError::Timeout)));
        assert_eq!(mount(&mut transport), Ok(expected(1, 1)));
    }
    let mut transport = card(1, &boot(1, 4136), 4137);
    transport.bus.arm_fault(5);
    assert_eq!(mount(&mut transport), Ok(expected(1, 1)));
}

use sdmmc_log::block::Block;
use sdmmc_log::clock::{SdMmcClock, Timestamp};
use sdmmc_log::dir::DirectoryEntry;
use sdmmc_log::error::{CapacityError, FsError, TransportError, VolumeError};
use sdmmc_log::append::append;
use sdmmc_log::file::{
    close, open_for_append, open_named, read_file, ClusterChain, OpenFileHandle,
};
use sdmmc_log::memcard::MemCard;
use sdmmc_log::name::ShortName;
use sdmmc_log::transport::BlockTransport;
use sdmmc_log::volume::{mount, Volume};

const CLUSTERS: u32 = 4100;
const FAT_START: u32 = 2;
const FAT_SECTORS: u32 = 17;
const ROOT_START: u32 = 36;
const ROOT_ENTRIES: u32 = 16;
const DATA_START: u32 = 37;
const LEADING: u32 = 1 + 2 * FAT_SECTORS + 1;

fn put16(block: &mut Block, at: usize, v: u16) {
    block.data[at] = (v & 0xFF) as u8;
    block.data[at + 1] = (v >> 8) as u8;
}

fn put32(block: &mut Block, at: usize, v: u32) {
    put16(block, at, (v & 0xFFFF) as u16);
    put16(block, at + 2, (v >> 16) as u16);
}

fn get16(block: &Block, at: usize) -> u16 {
    block.data[at] as u16 | (block.data[at + 1] as u16) << 8
}

fn get32(block: &Block, at: usize) -> u32 {
    get16(block, at) as u32 | (get16(block, at + 2) as u32) << 16
}

/// A card with one FAT16 partition that starts at sector 1 and holds 4100
/// empty clusters of `per_cluster` sectors each.
fn formatted(per_cluster: u8) -> MemCard {
    let total = LEADING + CLUSTERS * per_cluster as u32;
    let mut card = MemCard::new(1 + total);
    let mut table = Block::zeroed();
    table.data[450] = 0x06;
    put32(&mut table, 454, 1);
    put32(&mut table, 458, total);
    table.data[510] = 0x55;
    table.data[511] = 0xAA;
    assert!(card.poke(0, &table));
    let mut boot = Block::zeroed();
    put16(&mut boot, 11, 512);
    boot.data[13] = per_cluster;
    put16(&mut boot, 14, 1);
    boot.data[16] = 2;
    put16(&mut boot, 17, ROOT_ENTRIES as u16);
    put16(&mut boot, 19, total as u16);
    put16(&mut boot, 22, FAT_SECTORS as u16);
    boot.data[510] = 0x55;
    boot.data[511] = 0xAA;
    assert!(card.poke(1, &boot));
    let mut fat = Block::zeroed();
    put16(&mut fat, 0, 0xFFF8);
    put16(&mut fat, 2, 0xFFFF);
    assert!(card.poke(FAT_START, &fat));
    card
}

fn mounted(per_cluster: u8) -> (BlockTransport<MemCard>, Volume) {
    let mut transport = BlockTransport::new(formatted(per_cluster));
    let volume = mount(&mut transport).unwrap();
    (transport, volume)
}

fn epoch() -> Timestamp {
    SdMmcClock.get_timestamp()
}

fn pattern(len: usize, seed: u8) -> Vec<u8> {
    (0..len).map(|i| (i as u8).wrapping_mul(31).wrapping_add(seed)).collect()
}

fn fat_entry(transport: &BlockTransport<MemCard>, cluster: u32) -> u16 {
    let block = transport.bus.peek(FAT_START + cluster / 256).unwrap();
    get16(&block, ((cluster % 256) * 2) as usize)
}

fn set_fat_entry(transport: &mut BlockTransport<MemCard>, cluster: u32, value: u16) {
    let mut block = transport.bus.peek(FAT_START + cluster / 256).unwrap();
    put16(&mut block, ((cluster % 256) * 2) as usize, value);
    assert!(transport.bus.poke(FAT_START + cluster / 256, &block));
}

fn slot(transport: &BlockTransport<MemCard>, index: u32) -> Vec<u8> {
    let block = transport.bus.peek(ROOT_START + index / 16).unwrap();
    let at = ((index % 16) * 32) as usize;
    block.data[at..at + 32].to_vec()
}

fn recorded_size(transport: &BlockTransport<MemCard>, index: u32) -> u32 {
    let bytes = slot(transport, index);
    u32::from_le_bytes([bytes[28], bytes[29], bytes[30], bytes[31]])
}

fn write_file(transport: &mut BlockTransport<MemCard>, volume: &Volume, name: &str, data: &[u8]) {
    let mut handle = open_for_append(volume, transport, name, &epoch()).unwrap();
    assert_eq!(append(&mut handle, volume, transport, data).unwrap(), data.len());
    close(handle, volume, transport, &epoch()).unwrap();
}

fn read_back(transport: &mut BlockTransport<MemCard>, volume: &Volume, name: &str) -> Option<Vec<u8>> {
    read_file(volume, transport, &ShortName::parse(name).unwrap()).unwrap()
}

#[test]
fn log_file_grows_by_eleven_bytes_nine_times() {
    let mut transport = BlockTransport::new(formatted(1));
    let line = b"0123456789\n";
    for _ in 0..9 {
        transport.release();
        let volume = mount(&mut transport).unwrap();
        let mut handle = open_for_append(&volume, &mut transport, "LOG.TXT", &epoch()).unwrap();
        assert_eq!(append(&mut handle, &volume, &mut transport, line).unwrap(), 11);
        close(handle, &volume, &mut transport, &epoch()).unwrap();
    }
    let volume = mount(&mut transport).unwrap();
    let content = read_back(&mut transport, &volume, "LOG.TXT").unwrap();
    assert_eq!(content.len(), 9 * 11);
    assert_eq!(content, line.repeat(9));
    assert_eq!(recorded_size(&transport, 0), 99);
    assert_eq!(transport.into_bus().reset_count(), 9);
}

#[test]
fn opening_a_missing_file_creates_it_empty() {
    let (mut transport, volume) = mounted(1);
    let handle = open_for_append(&volume, &mut transport, "LOG.TXT", &epoch()).unwrap();
    assert_eq!(handle.slot, 0);
    assert_eq!(handle.size(), 0);
    assert_eq!(handle.cluster_total(), 1);
    assert_eq!(handle.entry.first_cluster, 2);
    assert_eq!(handle.cursor_cluster, 2);
    assert_eq!(handle.cursor_offset, 0);
    assert_eq!(fat_entry(&transport, 2), 0xFFFF);
    let bytes = slot(&transport, 0);
    assert_eq!(&bytes[0..11], b"LOG     TXT");
    assert_eq!(bytes[11], 0x20);
    assert_eq!(&bytes[26..28], &[2, 0]);
    assert_eq!(&bytes[28..32], &[0, 0, 0, 0]);
    assert_eq!(read_back(&mut transport, &volume, "LOG.TXT"), Some(Vec::new()));
}

#[test]
fn a_new_file_takes_the_first_unused_slot_and_the_lowest_free_cluster() {
    let (mut transport, volume) = mounted(1);
    write_file(&mut transport, &volume, "A.TXT", b"a");
    write_file(&mut transport, &volume, "B.TXT", b"b");
    write_file(&mut transport, &volume, "C.TXT", b"c");
    let mut root = transport.bus.peek(ROOT_START).unwrap();
    root.data[32] = 0xE5;
    assert!(transport.bus.poke(ROOT_START, &root));
    set_fat_entry(&mut transport, 3, 0);
    let handle = open_for_append(&volume, &mut transport, "D.TXT", &epoch()).unwrap();
    assert_eq!(handle.slot, 1);
    assert_eq!(handle.entry.first_cluster, 3);
    assert_eq!(read_back(&mut transport, &volume, "A.TXT"), Some(b"a".to_vec()));
    assert_eq!(read_back(&mut transport, &volume, "B.TXT"), None);
    assert_eq!(read_back(&mut transport, &volume, "C.TXT"), Some(b"c".to_vec()));
}

#[test]
fn appending_then_closing_reports_the_sum_and_reads_back_in_order() {
    let (mut transport, volume) = mounted(2);
    let first = pattern(100, 1);
    let second = pattern(50, 2);
    write_file(&mut transport, &volume, "DATA.BIN", &first);
    let mut handle = open_for_append(&volume, &mut transport, "DATA.BIN", &epoch()).unwrap();
    assert_eq!(handle.size(), 100);
    assert_eq!(append(&mut handle, &volume, &mut transport, &second).unwrap(), 50);
    assert_eq!(handle.size(), 150);
    assert_eq!(recorded_size(&transport, 0), 100);
    close(handle, &volume, &mut transport, &epoch()).unwrap();
    assert_eq!(recorded_size(&transport, 0), 150);
    let reopened = open_for_append(&volume, &mut transport, "DATA.BIN", &epoch()).unwrap();
    assert_eq!(reopened.size(), 150);
    let mut expected = first.clone();
    expected.extend_from_slice(&second);
    assert_eq!(read_back(&mut transport, &volume, "DATA.BIN"), Some(expected));
}

#[test]
fn several_appends_through_one_handle_add_up() {
    let (mut transport, volume) = mounted(1);
    let mut handle = open_for_append(&volume, &mut transport, "LOG.TXT", &epoch()).unwrap();
    let mut expected = Vec::new();
    for round in 0..20u8 {
        let piece = pattern(97, round);
        assert_eq!(append(&mut handle, &volume, &mut transport, &piece).unwrap(), 97);
        expected.extend_from_slice(&piece);
    }
    assert_eq!(handle.size(), 1940);
    assert_eq!(handle.cluster_total(), 4);
    close(handle, &volume, &mut transport, &epoch()).unwrap();
    assert_eq!(read_back(&mut transport, &volume, "LOG.TXT"), Some(expected));
}

#[test]
fn an_empty_append_changes_nothing() {
    let (mut transport, volume) = mounted(1);
    write_file(&mut transport, &volume, "LOG.TXT", b"abc");
    let mut handle = open_for_append(&volume, &mut transport, "LOG.TXT", &epoch()).unwrap();
    assert_eq!(append(&mut handle, &volume, &mut transport, b"").unwrap(), 0);
    assert_eq!(handle.size(), 3);
    assert_eq!(handle.cluster_total(), 1);
    close(handle, &volume, &mut transport, &epoch()).unwrap();
    assert_eq!(read_back(&mut transport, &volume, "LOG.TXT"), Some(b"abc".to_vec()));
}

#[test]
fn crossing_a_cluster_boundary_allocates_one_cluster() {
    let (mut transport, volume) = mounted(1);
    let first = pattern(500, 3);
    let second = pattern(100, 4);
    let mut handle = open_for_append(&volume, &mut transport, "LOG.TXT", &epoch()).unwrap();
    append(&mut handle, &volume, &mut transport, &first).unwrap();
    assert_eq!(handle.cluster_total(), 1);
    assert_eq!(fat_entry(&transport, 2), 0xFFFF);
    assert_eq!(fat_entry(&transport, 3), 0);
    append(&mut handle, &volume, &mut transport, &second).unwrap();
    assert_eq!(handle.cluster_total(), 2);
    assert_eq!(handle.chain.clusters, vec![2, 3]);
    assert_eq!(fat_entry(&transport, 2), 3);
    assert_eq!(fat_entry(&transport, 3), 0xFFFF);
    assert_eq!(fat_entry(&transport, 4), 0);
    assert_eq!(handle.cursor_cluster, 3);
    assert_eq!(handle.cursor_offset, 88);
    close(handle, &volume, &mut transport, &epoch()).unwrap();
    let mut expected = first.clone();
    expected.extend_from_slice(&second);
    assert_eq!(read_back(&mut transport, &volume, "LOG.TXT"), Some(expected));
}

#[test]
fn filling_a_cluster_exactly_allocates_none() {
    let (mut transport, volume) = mounted(1);
    let mut handle = open_for_append(&volume, &mut transport, "LOG.TXT", &epoch()).unwrap();
    append(&mut handle, &volume, &mut transport, &pattern(512, 5)).unwrap();
    assert_eq!(handle.cluster_total(), 1);
    assert_eq!(handle.cursor_cluster, 2);
    assert_eq!(handle.cursor_offset, 512);
    append(&mut handle, &volume, &mut transport, b"x").unwrap();
    assert_eq!(handle.cluster_total(), 2);
    assert_eq!(handle.cursor_cluster, 3);
    assert_eq!(handle.cursor_offset, 1);
}

#[test]
fn one_large_append_allocates_every_cluster_it_needs() {
    let (mut transport, volume) = mounted(2);
    let data = pattern(5000, 6);
    let mut handle = open_for_append(&volume, &mut transport, "BIG.BIN", &epoch()).unwrap();
    append(&mut handle, &volume, &mut transport, &data).unwrap();
    assert_eq!(handle.cluster_total(), 5);
    assert_eq!(handle.chain.clusters, vec![2, 3, 4, 5, 6]);
    assert_eq!(fat_entry(&transport, 6), 0xFFFF);
    assert_eq!(fat_entry(&transport, 7), 0);
    close(handle, &volume, &mut transport, &epoch()).unwrap();
    assert_eq!(read_back(&mut transport, &volume, "BIG.BIN"), Some(data));
}

#[test]
fn new_clusters_skip_those_in_use() {
    let (mut transport, volume) = mounted(1);
    write_file(&mut transport, &volume, "A.TXT", &pattern(300, 7));
    write_file(&mut transport, &volume, "B.TXT", &pattern(300, 8));
    let more = pattern(600, 9);
    let mut handle = open_for_append(&volume, &mut transport, "A.TXT", &epoch()).unwrap();
    append(&mut handle, &volume, &mut transport, &more).unwrap();
    assert_eq!(handle.chain.clusters, vec![2, 4]);
    close(handle, &volume, &mut transport, &epoch()).unwrap();
    let mut expected = pattern(300, 7);
    expected.extend_from_slice(&more);
    assert_eq!(read_back(&mut transport, &volume, "A.TXT"), Some(expected));
    assert_eq!(read_back(&mut transport, &volume, "B.TXT"), Some(pattern(300, 8)));
}

#[test]
fn a_timeout_during_append_leaves_the_sizes_and_the_content() {
    let earlier = pattern(500, 10);
    let more = pattern(700, 11);
    let mut hit = 0;
    for after in 0..64 {
        let (mut transport, volume) = mounted(1);
        write_file(&mut transport, &volume, "LOG.TXT", &earlier);
        let mut handle = open_for_append(&volume, &mut transport, "LOG.TXT", &epoch()).unwrap();
        transport.bus.arm_fault(after);
        match append(&mut handle, &volume, &mut transport, &more) {
            Ok(n) => {
                assert_eq!(n, 700);
                transport.bus.disarm();
                break;
            }
            Err(e) => {
                hit += 1;
                assert_eq!(e, FsError::Transport(TransportError::Timeout));
                assert_eq!(handle.size(), 500);
                assert_eq!(handle.cluster_total(), 1);
                assert_eq!(recorded_size(&transport, 0), 500);
                assert_eq!(read_back(&mut transport, &volume, "LOG.TXT"), Some(earlier.clone()));
                assert_eq!(append(&mut handle, &volume, &mut transport, &more).unwrap(), 700);
                close(handle, &volume, &mut transport, &epoch()).unwrap();
                let mut expected = earlier.clone();
                expected.extend_from_slice(&more);
                assert_eq!(read_back(&mut transport, &volume, "LOG.TXT"), Some(expected));
            }
        }
    }
    assert!(hit > 5);
}

#[test]
fn a_timeout_during_close_leaves_the_recorded_size() {
    let (mut transport, volume) = mounted(1);
    write_file(&mut transport, &volume, "LOG.TXT", b"first");
    let mut handle = open_for_append(&volume, &mut transport, "LOG.TXT", &epoch()).unwrap();
    append(&mut handle, &volume, &mut transport, b"second").unwrap();
    transport.bus.arm_fault(1);
    assert_eq!(
        close(handle, &volume, &mut transport, &epoch()),
        Err(FsError::Transport(TransportError::Timeout))
    );
    assert_eq!(recorded_size(&transport, 0), 5);
    assert_eq!(read_back(&mut transport, &volume, "LOG.TXT"), Some(b"first".to_vec()));
}

#[test]
fn an_unclosed_append_is_not_part_of_the_file() {
    let (mut transport, volume) = mounted(1);
    write_file(&mut transport, &volume, "LOG.TXT", b"kept");
    let mut handle = open_for_append(&volume, &mut transport, "LOG.TXT", &epoch()).unwrap();
    append(&mut handle, &volume, &mut transport, &pattern(1000, 12)).unwrap();
    drop(handle);
    assert_eq!(read_back(&mut transport, &volume, "LOG.TXT"), Some(b"kept".to_vec()));
    let mut again = open_for_append(&volume, &mut transport, "LOG.TXT", &epoch()).unwrap();
    assert_eq!(again.size(), 4);
    assert_eq!(again.cluster_total(), 2);
    append(&mut again, &volume, &mut transport, b" and more").unwrap();
    assert_eq!(again.cluster_total(), 2);
    close(again, &volume, &mut transport, &epoch()).unwrap();
    assert_eq!(read_back(&mut transport, &volume, "LOG.TXT"), Some(b"kept and more".to_vec()));
}

#[test]
fn names_are_matched_byte_for_byte() {
    let (mut transport, volume) = mounted(1);
    write_file(&mut transport, &volume, "LOG.TXT", b"upper");
    write_file(&mut transport, &volume, "log.txt", b"lower");
    assert_eq!(read_back(&mut transport, &volume, "LOG.TXT"), Some(b"upper".to_vec()));
    assert_eq!(read_back(&mut transport, &volume, "log.txt"), Some(b"lower".to_vec()));
    assert_eq!(read_back(&mut transport, &volume, "Log.txt"), None);
    assert_eq!(&slot(&transport, 1)[0..11], b"log     txt");
}

#[test]
fn the_search_stops_at_the_end_mark_and_skips_labels_and_directories() {
    let (mut transport, volume) = mounted(1);
    write_file(&mut transport, &volume, "A.TXT", b"a");
    write_file(&mut transport, &volume, "B.TXT", b"b");
    write_file(&mut transport, &volume, "C.TXT", b"c");
    let mut root = transport.bus.peek(ROOT_START).unwrap();
    root.data[11] = 0x08;
    root.data[32 + 11] = 0x10;
    assert!(transport.bus.poke(ROOT_START, &root));
    assert_eq!(read_back(&mut transport, &volume, "A.TXT"), None);
    assert_eq!(read_back(&mut transport, &volume, "B.TXT"), None);
    assert_eq!(read_back(&mut transport, &volume, "C.TXT"), Some(b"c".to_vec()));
    root.data[32] = 0x00;
    assert!(transport.bus.poke(ROOT_START, &root));
    assert_eq!(read_back(&mut transport, &volume, "C.TXT"), None);
}

#[test]
fn a_name_without_a_stored_form_is_refused() {
    let (mut transport, volume) = mounted(1);
    for name in ["", "TOOLONGNAME.TXT", "A.LONG", "A B.TXT", ".TXT", "A*.TXT"] {
        assert_eq!(
            open_for_append(&volume, &mut transport, name, &epoch()).err(),
            Some(FsError::Volume(VolumeError::BadName))
        );
    }
    assert_eq!(slot(&transport, 0), vec![0u8; 32]);
}

#[test]
fn a_chain_that_loops_is_corrupt() {
    let (mut transport, volume) = mounted(1);
    write_file(&mut transport, &volume, "LOG.TXT", &pattern(1500, 13));
    assert_eq!(fat_entry(&transport, 4), 0xFFFF);
    set_fat_entry(&mut transport, 4, 2);
    assert_eq!(
        open_for_append(&volume, &mut transport, "LOG.TXT", &epoch()).err(),
        Some(FsError::Volume(VolumeError::CorruptChain))
    );
    assert_eq!(
        read_file(&volume, &mut transport, &ShortName::parse("LOG.TXT").unwrap()),
        Err(FsError::Volume(VolumeError::CorruptChain))
    );
}

#[test]
fn a_chain_that_meets_a_free_or_foreign_cluster_is_corrupt() {
    for bad in [0u16, 1, 4102, 0xFFF7] {
        let (mut transport, volume) = mounted(1);
        write_file(&mut transport, &volume, "LOG.TXT", &pattern(600, 14));
        set_fat_entry(&mut transport, 3, bad);
        assert_eq!(
            open_for_append(&volume, &mut transport, "LOG.TXT", &epoch()).err(),
            Some(FsError::Volume(VolumeError::CorruptChain))
        );
    }
}

#[test]
fn every_end_mark_ends_a_chain() {
    for mark in [0xFFF8u16, 0xFFFB, 0xFFFF] {
        let (mut transport, volume) = mounted(1);
        write_file(&mut transport, &volume, "LOG.TXT", &pattern(600, 15));
        set_fat_entry(&mut transport, 3, mark);
        let handle = open_for_append(&volume, &mut transport, "LOG.TXT", &epoch()).unwrap();
        assert_eq!(handle.chain.clusters, vec![2, 3]);
    }
}

#[test]
fn a_size_beyond_the_chain_is_refused() {
    let (mut transport, volume) = mounted(1);
    write_file(&mut transport, &volume, "LOG.TXT", &pattern(600, 16));
    let mut root = transport.bus.peek(ROOT_START).unwrap();
    put32(&mut root, 28, 1025);
    assert!(transport.bus.poke(ROOT_START, &root));
    assert_eq!(
        open_for_append(&volume, &mut transport, "LOG.TXT", &epoch()).err(),
        Some(FsError::Volume(VolumeError::BadLength))
    );
    put32(&mut root, 28, 1024);
    assert!(transport.bus.poke(ROOT_START, &root));
    assert_eq!(open_for_append(&volume, &mut transport, "LOG.TXT", &epoch()).unwrap().size(), 1024);
}

#[test]
fn a_full_directory_refuses_a_new_file() {
    let (mut transport, volume) = mounted(1);
    for i in 0..ROOT_ENTRIES {
        write_file(&mut transport, &volume, &format!("F{}.TXT", i), b"x");
    }
    assert_eq!(
        open_for_append(&volume, &mut transport, "LAST.TXT", &epoch()).err(),
        Some(FsError::Capacity(CapacityError::DirectoryFull))
    );
    assert_eq!(read_back(&mut transport, &volume, "F15.TXT"), Some(b"x".to_vec()));
}

#[test]
fn a_full_volume_refuses_a_new_file_and_a_growing_one() {
    let (mut transport, volume) = mounted(1);
    write_file(&mut transport, &volume, "LOG.TXT", b"abc");
    for sector in 0..FAT_SECTORS {
        let mut block = transport.bus.peek(FAT_START + sector).unwrap();
        for entry in 0..256usize {
            if get16(&block, entry * 2) == 0 {
                put16(&mut block, entry * 2, 0xFFFF);
            }
        }
        assert!(transport.bus.poke(FAT_START + sector, &block));
    }
    assert_eq!(
        open_for_append(&volume, &mut transport, "NEW.TXT", &epoch()).err(),
        Some(FsError::Capacity(CapacityError::NoFreeCluster))
    );
    let mut handle = open_for_append(&volume, &mut transport, "LOG.TXT", &epoch()).unwrap();
    assert_eq!(append(&mut handle, &volume, &mut transport, &pattern(509, 17)).unwrap(), 509);
    assert_eq!(
        append(&mut handle, &volume, &mut transport, b"x"),
        Err(FsError::Capacity(CapacityError::NoFreeCluster))
    );
    assert_eq!(handle.size(), 512);
}

#[test]
fn too_few_free_clusters_refuse_the_whole_append() {
    let (mut transport, volume) = mounted(1);
    let mut handle = open_for_append(&volume, &mut transport, "LOG.TXT", &epoch()).unwrap();
    for cluster in 5..CLUSTERS + 2 {
        if cluster % 256 == 5 || cluster == 5 {
            let sector = FAT_START + cluster / 256;
            let mut block = transport.bus.peek(sector).unwrap();
            for entry in 0..256u32 {
                let c = (cluster / 256) * 256 + entry;
                if c >= 5 {
                    put16(&mut block, (entry * 2) as usize, 0xFFFF);
                }
            }
            assert!(transport.bus.poke(sector, &block));
        }
    }
    for sector in 1..FAT_SECTORS {
        let mut block = transport.bus.peek(FAT_START + sector).unwrap();
        for entry in 0..256usize {
            put16(&mut block, entry * 2, 0xFFFF);
        }
        assert!(transport.bus.poke(FAT_START + sector, &block));
    }
    let before_three = fat_entry(&transport, 3);
    assert_eq!(before_three, 0);
    assert_eq!(
        append(&mut handle, &volume, &mut transport, &pattern(4 * 512, 18)),
        Err(FsError::Capacity(CapacityError::NoFreeCluster))
    );
    assert_eq!(fat_entry(&transport, 3), 0);
    assert_eq!(fat_entry(&transport, 2), 0xFFFF);
    assert_eq!(append(&mut handle, &volume, &mut transport, &pattern(3 * 512, 19)).unwrap(), 1536);
    assert_eq!(handle.chain.clusters, vec![2, 3, 4]);
}

#[test]
fn a_file_cannot_pass_the_largest_recordable_size() {
    let (mut transport, volume) = mounted(1);
    let name = ShortName::parse("LOG.TXT").unwrap();
    let mut handle = OpenFileHandle {
        slot: 0,
        entry: DirectoryEntry { name, size: u32::MAX - 5, first_cluster: 2, modified: epoch() },
        chain: ClusterChain { clusters: vec![2] },
        cursor_cluster: 2,
        cursor_offset: 0,
    };
    assert_eq!(
        append(&mut handle, &volume, &mut transport, b"123456"),
        Err(FsError::Capacity(CapacityError::FileTooLarge))
    );
    assert_eq!(handle.size(), u32::MAX - 5);
}

#[test]
fn closing_records_the_time_in_packed_form() {
    let (mut transport, volume) = mounted(1);
    let created = Timestamp {
        year_since_1970: 54,
        zero_indexed_month: 2,
        zero_indexed_day: 4,
        hours: 12,
        minutes: 34,
        seconds: 56,
    };
    let handle = open_for_append(&volume, &mut transport, "LOG.TXT", &created).unwrap();
    let bytes = slot(&transport, 0);
    let time: u16 = 12 << 11 | 34 << 5 | 28;
    let date: u16 = 44 << 9 | 3 << 5 | 5;
    assert_eq!(&bytes[14..16], &time.to_le_bytes());
    assert_eq!(&bytes[16..18], &date.to_le_bytes());
    assert_eq!(&bytes[22..24], &time.to_le_bytes());
    assert_eq!(&bytes[24..26], &date.to_le_bytes());
    let later = Timestamp { hours: 13, minutes: 0, seconds: 1, ..created };
    close(handle, &volume, &mut transport, &later).unwrap();
    let bytes = slot(&transport, 0);
    let time: u16 = 13 << 11;
    assert_eq!(&bytes[14..16], &(12u16 << 11 | 34 << 5 | 28).to_le_bytes());
    assert_eq!(&bytes[22..24], &time.to_le_bytes());
    assert_eq!(&bytes[24..26], &date.to_le_bytes());
}

#[test]
fn the_epoch_is_recorded_as_the_first_day_of_1980() {
    let (mut transport, volume) = mounted(1);
    write_file(&mut transport, &volume, "LOG.TXT", b"x");
    let bytes = slot(&transport, 0);
    assert_eq!(&bytes[22..26], &[0x00, 0x00, 0x21, 0x00]);
}

#[test]
fn opening_reads_the_recorded_time() {
    let (mut transport, volume) = mounted(1);
    let stamp = Timestamp {
        year_since_1970: 31,
        zero_indexed_month: 11,
        zero_indexed_day: 30,
        hours: 23,
        minutes: 59,
        seconds: 58,
    };
    let handle = open_for_append(&volume, &mut transport, "LOG.TXT", &epoch()).unwrap();
    close(handle, &volume, &mut transport, &stamp).unwrap();
    let name = ShortName::parse("LOG.TXT").unwrap();
    let reopened = open_named(&volume, &mut transport, &name, &epoch()).unwrap();
    assert_eq!(reopened.entry.modified, stamp);
    assert_eq!(reopened.entry.name, name);
    assert_eq!(reopened.entry.first_cluster, 2);
}

#[test]
fn data_lands_in_the_sectors_of_its_clusters() {
    let (mut transport, volume) = mounted(2);
    write_file(&mut transport, &volume, "PAD.BIN", &pattern(10, 20));
    let data = pattern(1500, 21);
    write_file(&mut transport, &volume, "LOG.TXT", &data);
    let first = transport.bus.peek(DATA_START + 2).unwrap();
    let second = transport.bus.peek(DATA_START + 3).unwrap();
    let third = transport.bus.peek(DATA_START + 4).unwrap();
    assert_eq!(&first.data[..], &data[0..512]);
    assert_eq!(&second.data[..], &data[512..1024]);
    assert_eq!(&third.data[0..476], &data[1024..1500]);
    assert_eq!(get32(&transport.bus.peek(ROOT_START).unwrap(), 32 + 28), 1500);
}

/// Records an empty file without a cluster in slot 0, as another system
/// would.
fn record_empty(transport: &mut BlockTransport<MemCard>, size: u32) {
    let mut root = transport.bus.peek(ROOT_START).unwrap();
    root.data[0..11].copy_from_slice(b"EMPTY   TXT");
    root.data[11] = 0x20;
    put16(&mut root, 22, 0x6000);
    put16(&mut root, 24, 0x5821);
    put32(&mut root, 28, size);
    assert!(transport.bus.poke(ROOT_START, &root));
}

#[test]
fn an_empty_file_without_a_cluster_gets_one_when_opened() {
    let (mut transport, volume) = mounted(1);
    record_empty(&mut transport, 0);
    assert_eq!(read_back(&mut transport, &volume, "EMPTY.TXT"), Some(Vec::new()));
    set_fat_entry(&mut transport, 2, 0xFFFF);
    let mut handle = open_for_append(&volume, &mut transport, "EMPTY.TXT", &epoch()).unwrap();
    assert_eq!(handle.slot, 0);
    assert_eq!(handle.size(), 0);
    assert_eq!(handle.entry.first_cluster, 3);
    assert_eq!(handle.chain.clusters, vec![3]);
    assert_eq!(handle.entry.modified.hours, 12);
    assert_eq!(handle.entry.modified.year_since_1970, 54);
    assert_eq!(fat_entry(&transport, 3), 0xFFFF);
    let bytes = slot(&transport, 0);
    assert_eq!(&bytes[0..11], b"EMPTY   TXT");
    assert_eq!(&bytes[22..26], &[0x00, 0x60, 0x21, 0x58]);
    assert_eq!(&bytes[26..28], &[3, 0]);
    assert_eq!(&bytes[28..32], &[0, 0, 0, 0]);
    append(&mut handle, &volume, &mut transport, b"filled").unwrap();
    close(handle, &volume, &mut transport, &epoch()).unwrap();
    assert_eq!(read_back(&mut transport, &volume, "EMPTY.TXT"), Some(b"filled".to_vec()));
}

#[test]
fn a_file_with_content_but_no_cluster_is_corrupt() {
    let (mut transport, volume) = mounted(1);
    record_empty(&mut transport, 1);
    assert_eq!(
        open_for_append(&volume, &mut transport, "EMPTY.TXT", &epoch()).err(),
        Some(FsError::Volume(VolumeError::CorruptChain))
    );
    assert_eq!(
        read_file(&volume, &mut transport, &ShortName::parse("EMPTY.TXT").unwrap()),
        Err(FsError::Volume(VolumeError::CorruptChain))
    );
}

#[test]
fn an_empty_file_without_a_cluster_needs_a_free_one() {
    let (mut transport, volume) = mounted(1);
    record_empty(&mut transport, 0);
    for sector in 0..FAT_SECTORS {
        let mut block = transport.bus.peek(FAT_START + sector).unwrap();
        for entry in 0..256usize {
            put16(&mut block, entry * 2, 0xFFFF);
        }
        assert!(transport.bus.poke(FAT_START + sector, &block));
    }
    assert_eq!(
        open_for_append(&volume, &mut transport, "EMPTY.TXT", &epoch()).err(),
        Some(FsError::Capacity(CapacityError::NoFreeCluster))
    );
    assert_eq!(&slot(&transport, 0)[26..28], &[0, 0]);
}

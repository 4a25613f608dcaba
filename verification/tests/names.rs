use sdmmc_log::clock::{SdMmcClock, Timestamp};
use sdmmc_log::data::{clusters_needed, locate};
use sdmmc_log::name::ShortName;
use sdmmc_log::volume::Volume;

fn volume(per_cluster: u8) -> Volume {
    Volume {
        sectors_per_cluster: per_cluster,
        fat_start: 2,
        fat_sectors: 17,
        root_start: 36,
        root_entries: 16,
        data_start: 37,
        cluster_count: 4100,
    }
}

#[test]
fn a_name_is_padded_to_eight_and_three() {
    assert_eq!(ShortName::parse("LOG.TXT").unwrap().bytes, *b"LOG     TXT");
    assert_eq!(ShortName::parse("GpsLog.txt").unwrap().bytes, *b"GpsLog  txt");
    assert_eq!(ShortName::parse("A").unwrap().bytes, *b"A          ");
    assert_eq!(ShortName::parse("A.").unwrap().bytes, *b"A          ");
    assert_eq!(ShortName::parse("12345678.123").unwrap().bytes, *b"12345678123");
    assert_eq!(ShortName::parse("README.MD").unwrap().bytes, *b"README  MD ");
}

#[test]
fn names_that_do_not_fit_are_rejected() {
    for name in ["", ".", ".A", "123456789", "A.1234", "A B", "A/B", "A:B", "A\\B", "A\"B", "A\tB"] {
        assert_eq!(ShortName::parse(name), None);
    }
}

#[test]
fn a_name_may_not_start_with_a_directory_mark() {
    assert_eq!(ShortName::parse("\u{5965}.TXT"), None);
    assert!(ShortName::parse("A\u{e5}.TXT").is_some());
    assert_eq!(ShortName::from_parts(&vec![0xE5, b'A'], &vec![]), None);
    assert_eq!(ShortName::from_parts(&vec![0x00, b'A'], &vec![]), None);
    assert_eq!(
        ShortName::from_parts(&vec![b'A', 0xE5], &vec![0x00]).unwrap().bytes,
        [b'A', 0xE5, 0x20, 0x20, 0x20, 0x20, 0x20, 0x20, 0x00, 0x20, 0x20]
    );
}

#[test]
fn parts_are_padded_or_refused() {
    assert_eq!(
        ShortName::from_parts(&b"LOG".to_vec(), &b"TXT".to_vec()).unwrap().bytes,
        *b"LOG     TXT"
    );
    assert_eq!(
        ShortName::from_parts(&b"ABCDEFGH".to_vec(), &b"".to_vec()).unwrap().bytes,
        *b"ABCDEFGH   "
    );
    assert_eq!(ShortName::from_parts(&b"".to_vec(), &b"TXT".to_vec()), None);
    assert_eq!(ShortName::from_parts(&b"ABCDEFGHI".to_vec(), &b"".to_vec()), None);
    assert_eq!(ShortName::from_parts(&b"A".to_vec(), &b"TEXT".to_vec()), None);
}

#[test]
fn the_clock_reads_the_epoch() {
    let stamp = SdMmcClock.get_timestamp();
    assert_eq!(
        stamp,
        Timestamp {
            year_since_1970: 0,
            zero_indexed_month: 0,
            zero_indexed_day: 0,
            hours: 0,
            minutes: 0,
            seconds: 0,
        }
    );
    assert!(stamp.is_valid());
}

#[test]
fn a_timestamp_is_valid_within_its_calendar_ranges() {
    let good = Timestamp {
        year_since_1970: 255,
        zero_indexed_month: 11,
        zero_indexed_day: 30,
        hours: 23,
        minutes: 59,
        seconds: 59,
    };
    assert!(good.is_valid());
    assert!(!Timestamp { zero_indexed_month: 12, ..good }.is_valid());
    assert!(!Timestamp { zero_indexed_day: 31, ..good }.is_valid());
    assert!(!Timestamp { hours: 24, ..good }.is_valid());
    assert!(!Timestamp { minutes: 60, ..good }.is_valid());
    assert!(!Timestamp { seconds: 60, ..good }.is_valid());
}

#[test]
fn clusters_needed_rounds_up() {
    let one = volume(1);
    assert_eq!(clusters_needed(&one, 0), 0);
    assert_eq!(clusters_needed(&one, 1), 1);
    assert_eq!(clusters_needed(&one, 512), 1);
    assert_eq!(clusters_needed(&one, 513), 2);
    assert_eq!(clusters_needed(&one, u32::MAX), 8388608);
    let four = volume(4);
    assert_eq!(clusters_needed(&four, 2048), 1);
    assert_eq!(clusters_needed(&four, 2049), 2);
    assert_eq!(clusters_needed(&four, 513), 1);
    assert_eq!(clusters_needed(&four, 10000), 5);
    let odd = volume(3);
    assert_eq!(clusters_needed(&odd, 1536), 1);
    assert_eq!(clusters_needed(&odd, 1537), 2);
}

#[test]
fn a_file_sector_lies_in_its_cluster() {
    let chain = vec![5, 2, 9];
    let one = volume(1);
    assert_eq!(locate(&one, &chain, 0), 37 + 3);
    assert_eq!(locate(&one, &chain, 1), 37);
    assert_eq!(locate(&one, &chain, 2), 37 + 7);
    let four = volume(4);
    assert_eq!(locate(&four, &chain, 0), 37 + 12);
    assert_eq!(locate(&four, &chain, 3), 37 + 15);
    assert_eq!(locate(&four, &chain, 4), 37);
    assert_eq!(locate(&four, &chain, 11), 37 + 28 + 3);
}

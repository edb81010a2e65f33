use stfs::error::StfsError;
use stfs::layout::{MAGIC_IDENTIFIER, METADATA_SPACE_SIZE};
use stfs::locator::search;
use stfs::metadata_space::MetadataSpace;
use stfs::mount::{initialise, Stfs};
use stfs::table::{read_table, write_table, ShiftingTable};
use stfs::trail::{read_footer, write_footer};

fn formatted(sectors: usize) -> Vec<u8> {
    let mut medium = vec![0u8; 512 * sectors];
    stfs::formatter::format(&mut medium).unwrap();
    medium
}

fn footers(medium: &Vec<u8>) -> Vec<u128> {
    (0..METADATA_SPACE_SIZE).map(|i| read_footer(medium, i)).collect()
}

fn descents(f: &[u128]) -> usize {
    (0..f.len()).filter(|&i| f[(i + 1) % f.len()] < f[i]).count()
}

#[test]
fn format_lays_initial_trail_and_search_finds_sector_zero() {
    let medium = formatted(1000);
    assert_eq!(footers(&medium), vec![10, 1, 2, 3, 4, 5, 6, 7, 8, 9]);
    assert_eq!(search(&medium), Ok(0));
    assert_eq!(descents(&footers(&medium)), 1);
    let t = read_table(&medium, 0).unwrap();
    assert_eq!(t.accesses_left, 500);
    assert_eq!(t.accesses_per_shift, 500);
    assert_eq!(t.table_size, 1);
    assert_eq!(t.magic, MAGIC_IDENTIFIER);
    assert!(t.files_data.is_empty());
}

#[test]
fn footers_are_little_endian_on_disk() {
    let medium = formatted(20);
    let mut expected = vec![0u8; 16];
    expected[0] = 10;
    assert_eq!(&medium[496..512], &expected[..]);
    expected[0] = 3;
    assert_eq!(&medium[3 * 512 + 496..3 * 512 + 512], &expected[..]);
}

#[test]
fn format_keeps_bytes_outside_region_and_table() {
    let mut medium = vec![0xAAu8; 512 * 20];
    stfs::formatter::format(&mut medium).unwrap();
    assert!(medium[40..496].iter().all(|&b| b == 0xAA));
    assert!(medium[512..1008].iter().all(|&b| b == 0xAA));
    assert!(medium[10 * 512..].iter().all(|&b| b == 0xAA));
}

#[test]
fn five_hundred_accesses_shift_once() {
    let mut st = initialise(formatted(1000)).unwrap();
    for _ in 0..500 {
        st.access().unwrap();
    }
    assert_eq!(st.get_table_location(), 1);
    assert_eq!(footers(&st.medium), vec![10, 11, 2, 3, 4, 5, 6, 7, 8, 9]);
    assert!(st.medium[0..496].iter().all(|&b| b == 0));
    let t = read_table(&st.medium, 1).unwrap();
    assert_eq!(t.accesses_left, 500);
}

#[test]
fn four_hundred_ninety_nine_accesses_do_not_shift() {
    let mut st = initialise(formatted(1000)).unwrap();
    for _ in 0..499 {
        st.access().unwrap();
    }
    assert_eq!(st.get_table_location(), 0);
    assert_eq!(read_table(&st.medium, 0).unwrap().accesses_left, 1);
    assert_eq!(footers(&st.medium), vec![10, 1, 2, 3, 4, 5, 6, 7, 8, 9]);
}

#[test]
fn four_thousand_five_hundred_accesses() {
    let mut st = initialise(formatted(1000)).unwrap();
    for _ in 0..4500 {
        st.access().unwrap();
        let t = read_table(&st.medium, st.get_table_location()).unwrap();
        assert!(0 < t.accesses_left && t.accesses_left <= t.accesses_per_shift);
        assert_eq!(descents(&footers(&st.medium)), 1);
    }
    assert_eq!(st.get_table_location(), 9);
    assert_eq!(search(&st.medium), Ok(9));
    assert_eq!(footers(&st.medium), vec![10, 11, 12, 13, 14, 15, 16, 17, 18, 19]);
}

#[test]
fn ten_shifts_wrap_to_sector_zero() {
    let mut st = initialise(formatted(1000)).unwrap();
    for _ in 0..5000 {
        st.access().unwrap();
    }
    assert_eq!(st.get_table_location(), 0);
    assert_eq!(search(&st.medium), Ok(0));
    assert_eq!(footers(&st.medium), vec![20, 11, 12, 13, 14, 15, 16, 17, 18, 19]);
}

#[test]
fn view_write_skips_footer_at_boundary() {
    let mut medium = formatted(20);
    let before = medium.clone();
    let data: Vec<u8> = (0..992usize).map(|i| (i % 0xF0) as u8).collect();
    let mut w = MetadataSpace::new(0);
    assert_eq!(w.write(&mut medium, &data), Ok(992));
    assert_eq!(w.offset, 992);
    let mut r = MetadataSpace::new(0);
    let mut back = vec![0u8; 992];
    assert_eq!(r.read(&medium, &mut back), Ok(992));
    assert_eq!(back, data);
    assert_eq!(&medium[496..512], &before[496..512]);
    assert_eq!(&medium[1008..1024], &before[1008..1024]);
    assert_eq!(&medium[992 + 32..1536], &before[992 + 32..1536]);
    assert_eq!(medium[512], data[496]);
    assert_eq!(medium[1007], data[991]);
}

#[test]
fn view_transfer_starting_at_footer_offset() {
    let mut medium = vec![7u8; 512 * 4];
    let mut w = MetadataSpace::new(1);
    assert_eq!(w.write(&mut medium, &[1u8; 496]), Ok(496));
    assert_eq!(w.write(&mut medium, &[2u8, 3u8]), Ok(2));
    assert_eq!(&medium[512 + 496..1024], &[7u8; 16][..]);
    assert_eq!(medium[1024], 2);
    assert_eq!(medium[1025], 3);
    let mut r = MetadataSpace::new(1);
    let mut skip = vec![0u8; 496];
    r.read(&medium, &mut skip).unwrap();
    let mut two = vec![0u8; 2];
    assert_eq!(r.read(&medium, &mut two), Ok(2));
    assert_eq!(two, vec![2, 3]);
}

#[test]
fn view_transfer_past_end_fails() {
    let mut medium = vec![0u8; 512 * 2];
    let mut w = MetadataSpace::new(1);
    assert_eq!(w.write(&mut medium, &[1u8; 497]), Err(StfsError::IoFailure));
    assert_eq!(w.offset, 0);
    assert!(medium.iter().all(|&b| b == 0));
    let mut buf = vec![0u8; 497];
    assert_eq!(w.read(&medium, &mut buf), Err(StfsError::IoFailure));
    assert_eq!(w.write(&mut medium, &[1u8; 496]), Ok(496));
}

#[test]
fn wrap_shift_from_last_sector() {
    let mut medium = formatted(1000);
    for i in 0..METADATA_SPACE_SIZE {
        write_footer(&mut medium, i, 10 + i as u128);
    }
    let mut t = ShiftingTable::new();
    t.accesses_left = 1;
    write_table(&mut medium, 9, &t).unwrap();
    let mut st: Stfs = initialise(medium).unwrap();
    assert_eq!(st.get_table_location(), 9);
    let old_head = read_footer(&st.medium, 9);
    st.access().unwrap();
    assert_eq!(st.get_table_location(), 0);
    assert!(read_footer(&st.medium, 0) > old_head);
    assert_eq!(read_footer(&st.medium, 0), 20);
    assert_eq!(descents(&footers(&st.medium)), 1);
    assert_eq!(search(&st.medium), Ok(0));
    assert_eq!(read_table(&st.medium, 0).unwrap().accesses_left, 500);
    assert!(st.medium[9 * 512..9 * 512 + 496].iter().all(|&b| b == 0));
}

#[test]
fn wrap_shift_from_middle_with_large_table() {
    let mut medium = formatted(1000);
    let mut t = ShiftingTable::new();
    t.files_data = vec![5u8; 1000];
    t.set_table_size();
    assert_eq!(t.table_size, 3);
    t.accesses_left = 1;
    for i in 0..METADATA_SPACE_SIZE {
        let v: u128 = if i <= 7 { 30 - (7 - i as u128) } else { 30 + i as u128 - 7 - 10 };
        write_footer(&mut medium, i, v);
    }
    write_table(&mut medium, 7, &t).unwrap();
    let mut st = initialise(medium).unwrap();
    assert_eq!(st.get_table_location(), 7);
    st.access().unwrap();
    assert_eq!(st.get_table_location(), 0);
    assert_eq!(footers(&st.medium), vec![33, 24, 25, 26, 27, 28, 29, 30, 31, 32]);
    assert_eq!(descents(&footers(&st.medium)), 1);
    let back = read_table(&st.medium, 0).unwrap();
    assert_eq!(back.files_data, vec![5u8; 1000]);
}

#[test]
fn format_refuses_small_medium() {
    let mut medium = vec![0u8; 5 * 512];
    assert_eq!(stfs::formatter::format(&mut medium), Err(StfsError::MediumTooSmall));
    assert!(medium.iter().all(|&b| b == 0));
    let mut exact = vec![0u8; 10 * 512];
    assert_eq!(stfs::formatter::format(&mut exact), Err(StfsError::MediumTooSmall));
    let mut one_more = vec![0u8; 11 * 512];
    assert_eq!(stfs::formatter::format(&mut one_more), Ok(()));
}

#[test]
fn table_round_trip() {
    let mut medium = vec![0u8; 512 * 20];
    let mut t = ShiftingTable::new();
    t.accesses_left = 7;
    t.files_data = (0..1200usize).map(|i| (i % 251) as u8).collect();
    t.set_table_size();
    assert_eq!(t.table_size, 3);
    write_table(&mut medium, 4, &t).unwrap();
    let back = read_table(&medium, 4).unwrap();
    assert_eq!(back.accesses_left, 7);
    assert_eq!(back.accesses_per_shift, 500);
    assert_eq!(back.table_size, 3);
    assert_eq!(back.magic, MAGIC_IDENTIFIER);
    assert_eq!(back.files_data, t.files_data);
}

#[test]
fn table_encoding_is_fixed_width_little_endian() {
    let t = ShiftingTable::new();
    let b = t.encode();
    assert_eq!(b.len(), 40);
    assert_eq!(&b[0..8], &[0xF4, 0x01, 0, 0, 0, 0, 0, 0]);
    assert_eq!(&b[8..16], &[0xF4, 0x01, 0, 0, 0, 0, 0, 0]);
    assert_eq!(&b[16..24], &[1, 0, 0, 0, 0, 0, 0, 0]);
    assert_eq!(&b[24..32], &[0x74, 0xbf, 0xc8, 0x2b, 0xdd, 0x65, 0x27, 0x8d]);
    assert_eq!(&b[32..40], &[0u8; 8]);
}

#[test]
fn read_table_past_end_fails() {
    let medium = vec![0u8; 512 * 2];
    assert!(matches!(read_table(&medium, 2), Err(StfsError::IoFailure)));
    let mut long = vec![0u8; 512 * 2];
    long[32] = 0xFF;
    long[33] = 0xFF;
    assert!(matches!(read_table(&long, 0), Err(StfsError::IoFailure)));
}

#[test]
fn access_on_bad_table_is_corruption() {
    let mut medium = formatted(20);
    let mut t = ShiftingTable::new();
    t.magic = 1;
    write_table(&mut medium, 0, &t).unwrap();
    let mut st = initialise(medium).unwrap();
    let before = st.medium.clone();
    assert_eq!(st.access(), Err(StfsError::Corruption));
    assert_eq!(st.medium, before);
    let mut t2 = ShiftingTable::new();
    t2.accesses_left = 0;
    write_table(&mut st.medium, 0, &t2).unwrap();
    assert_eq!(st.access(), Err(StfsError::Corruption));
}

#[test]
fn search_on_short_medium_fails() {
    assert_eq!(search(&vec![0u8; 512 * 9]), Err(StfsError::IoFailure));
    assert!(matches!(initialise(vec![0u8; 100]), Err(StfsError::IoFailure)));
}

#[test]
fn search_finds_every_head() {
    for t in 0..METADATA_SPACE_SIZE {
        let mut medium = vec![0u8; 512 * 12];
        let h: u128 = 1000;
        for i in 0..METADATA_SPACE_SIZE {
            let v = if i <= t { h - (t - i) as u128 } else { h + (i - t) as u128 - 10 };
            write_footer(&mut medium, i, v);
        }
        assert_eq!(search(&medium), Ok(t));
    }
}

#[test]
fn set_and_get_table_location() {
    let mut st = initialise(formatted(20)).unwrap();
    st.set_table_location(4);
    assert_eq!(st.get_table_location(), 4);
}

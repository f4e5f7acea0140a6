use atomic_register::domain::{empty_sector, SectorVec};
use atomic_register::endian::{
    u128_from_be_bytes, u128_to_be_bytes, u64_from_be_bytes, u64_to_be_bytes,
};
use atomic_register::sectors::{
    blank_record, decimal_digits, encode_sector, get_filename_from_idx, get_sector_in_worker_id,
    get_worker_id, read_data, read_metadata, SECTOR_HEADER_SIZE, WORKERS_COUNT,
};
use std::collections::HashSet;

#[test]
fn sectors_are_dealt_to_the_workers_in_turn() {
    assert_eq!(WORKERS_COUNT, 4);
    assert_eq!(get_worker_id(0), 0);
    assert_eq!(get_worker_id(9), 1);
    assert_eq!(get_worker_id(u64::MAX), 3);
    assert_eq!(get_sector_in_worker_id(0), 0);
    assert_eq!(get_sector_in_worker_id(9), 2);
    assert_eq!(get_sector_in_worker_id(u64::MAX), u64::MAX / 4);
}

#[test]
fn file_names_are_shard_underscore_place() {
    assert_eq!(get_filename_from_idx(0), "0_0");
    assert_eq!(get_filename_from_idx(9), "1_2");
    assert_eq!(get_filename_from_idx(43), "3_10");
    assert_eq!(get_filename_from_idx(u64::MAX), "3_4611686018427387903");
    for idx in 0..200u64 {
        assert_eq!(
            get_filename_from_idx(idx),
            (idx % 4).to_string() + "_" + &(idx / 4).to_string()
        );
    }
}

#[test]
fn different_sectors_have_different_file_names() {
    let mut names = HashSet::new();
    for idx in 0..5000u64 {
        assert!(names.insert(get_filename_from_idx(idx)));
    }
}

#[test]
fn decimal_digits_are_those_of_the_number() {
    for n in [0u64, 1, 9, 10, 11, 99, 100, 12345, u64::MAX] {
        assert_eq!(decimal_digits(n), n.to_string().into_bytes());
    }
}

#[test]
fn a_record_is_timestamp_rank_data() {
    let data = SectorVec((0..4096u32).map(|i| (i % 251) as u8).collect());
    let record = encode_sector(&(data.clone(), 0x0102030405060708, 9));
    assert_eq!(record.len(), 4096 + 9);
    assert_eq!(SECTOR_HEADER_SIZE, 9);
    assert_eq!(&record[..8], &[1, 2, 3, 4, 5, 6, 7, 8]);
    assert_eq!(record[8], 9);
    assert_eq!(&record[9..], &data.0[..]);
    let file = Some(record);
    assert_eq!(read_metadata(&file), (0x0102030405060708, 9));
    assert_eq!(read_data(&file), data);
}

#[test]
fn a_missing_file_reads_as_a_sector_never_written() {
    assert_eq!(read_metadata(&None), (0, 0));
    assert_eq!(read_data(&None), SectorVec(vec![0; 4096]));
    assert_eq!(empty_sector(), SectorVec(vec![0; 4096]));
    let blank = blank_record();
    assert_eq!(blank, vec![0u8; 4096 + 9]);
    assert_eq!(read_metadata(&Some(blank.clone())), (0, 0));
    assert_eq!(read_data(&Some(blank)), SectorVec(vec![0; 4096]));
}

#[test]
fn a_record_of_nine_bytes_has_no_data() {
    let file = Some(vec![0, 0, 0, 0, 0, 0, 0, 5, 2]);
    assert_eq!(read_metadata(&file), (5, 2));
    assert_eq!(read_data(&file), SectorVec(vec![]));
}

#[test]
fn big_endian_numbers() {
    assert_eq!(u64_to_be_bytes(0), [0; 8]);
    assert_eq!(u64_to_be_bytes(0x0102030405060708), [1, 2, 3, 4, 5, 6, 7, 8]);
    assert_eq!(u64_to_be_bytes(u64::MAX), [0xff; 8]);
    for v in [0u64, 1, 255, 256, 0xdeadbeef, u64::MAX - 1, u64::MAX] {
        assert_eq!(u64_to_be_bytes(v), v.to_be_bytes());
        let mut bytes = vec![0xaa, 0xbb];
        bytes.extend_from_slice(&v.to_be_bytes());
        bytes.push(0xcc);
        assert_eq!(u64_from_be_bytes(&bytes, 2), v);
    }
    for v in [0u128, 1, u64::MAX as u128, u64::MAX as u128 + 1, u128::MAX] {
        assert_eq!(u128_to_be_bytes(v), v.to_be_bytes().to_vec());
        let mut bytes = vec![0xaa];
        bytes.extend_from_slice(&v.to_be_bytes());
        assert_eq!(u128_from_be_bytes(&bytes, 1), v);
    }
}

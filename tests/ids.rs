use addresslibgen::addrlib::{
    bin_bytes, bin_mappings, encode, versions_without_bin, AddressBin, AddressBins, BinError,
};
use addresslibgen::common::{input_directory_validator, Id, InputDirError, Offset, Version};
use addresslibgen::graph::Graph;
use addresslibgen::offsets::{OffsetList, OffsetLists};

fn id(x: u64) -> Id {
    Id::try_from(x).unwrap()
}

#[test]
fn id_next_and_reserved_value() {
    assert_eq!(id(4).next().unwrap().get(), 5);
    assert!(id(u64::MAX - 1).next().is_err());
    assert!(Id::try_from(u64::MAX).is_err());
    assert_eq!(Id::lowest().get(), 0);
}

#[test]
fn largest_unused_id_of_no_bins_is_lowest() {
    assert_eq!(AddressBins::new().largest_unused_id().unwrap().get(), 0);
}

#[test]
fn largest_unused_id_follows_maximum() {
    let mut bins = AddressBins::new();
    let _ = bins.insert(Version::new(1, 0, 0, 0), AddressBin::new(vec![(id(3), Offset(1)), (id(17), Offset(2))]));
    let _ = bins.insert(Version::new(1, 1, 0, 0), AddressBin::new(vec![(id(9), Offset(1))]));
    assert_eq!(bins.largest_unused_id().unwrap().get(), 18);
    let mut full = AddressBins::new();
    let _ = full.insert(Version::new(1, 0, 0, 0), AddressBin::new(vec![(id(u64::MAX - 1), Offset(1))]));
    assert!(full.largest_unused_id().is_err());
}

#[test]
fn duplicate_bin_version_refused() {
    let mut bins = AddressBins::new();
    assert!(bins.insert(Version::new(1, 0, 0, 0), AddressBin::new(vec![])).is_ok());
    assert!(bins.insert(Version::new(1, 0, 0, 0), AddressBin::new(vec![])).is_err());
    assert!(bins.contains_key(Version::new(1, 0, 0, 0)));
    assert!(!bins.contains_key(Version::new(1, 0, 1, 0)));
}

#[test]
fn encode_layout_is_little_endian() {
    let bytes = encode(&[(0x0102, 0x0A0B0C0D)]);
    assert_eq!(
        bytes,
        vec![1, 0, 0, 0, 0, 0, 0, 0, 2, 1, 0, 0, 0, 0, 0, 0, 0x0D, 0x0C, 0x0B, 0x0A, 0, 0, 0, 0]
    );
}

#[test]
fn bin_round_trip() {
    let records = vec![(7u64, 0x1000u64), (3, 0xFFFF_FFFF), (12, 0)];
    let bytes = encode(&records);
    let bin = AddressBin::parse(&bytes).map_err(|_| ()).unwrap();
    let back: Vec<(u64, u64)> = bin.iter().iter().map(|(i, o)| (i.get(), o.0 as u64)).collect();
    assert_eq!(back, records);
}

#[test]
fn parse_errors() {
    assert!(matches!(AddressBin::parse(&[1, 0, 0]), Err(BinError::Truncated)));
    let mut short = encode(&[(1, 2)]);
    short.pop();
    assert!(matches!(AddressBin::parse(&short), Err(BinError::Truncated)));
    let bad_id = encode(&[(1, 2), (u64::MAX, 3)]);
    assert!(matches!(AddressBin::parse(&bad_id), Err(BinError::InvalidId(1))));
    let bad_offset = encode(&[(1, 1u64 << 32)]);
    assert!(matches!(AddressBin::parse(&bad_offset), Err(BinError::OffsetTooLarge(0))));
    let empty = AddressBin::parse(&encode(&[])).map_err(|_| ()).unwrap();
    assert_eq!(empty.iter().len(), 0);
}

#[test]
fn bin_for_version_sorted_by_id() {
    let mut graph = Graph::new();
    let list = OffsetList::from_offsets(&vec![Offset(0x30), Offset(0x10), Offset(0x20)], &mut graph);
    graph.seed(list.get(Offset(0x30)).unwrap().ix, id(9)).unwrap();
    graph.assign_all_ids(id(5)).unwrap();
    let records = bin_mappings(&graph, &list);
    assert_eq!(records, vec![(5, 0x10), (6, 0x20), (9, 0x30)]);
    assert_eq!(bin_bytes(&graph, &list), encode(&records));
}

#[test]
fn only_versions_without_bins_are_written() {
    let mut graph = Graph::new();
    let mut lists = OffsetLists::new();
    let a = OffsetList::from_offsets(&vec![Offset(1)], &mut graph);
    let b = OffsetList::from_offsets(&vec![Offset(1)], &mut graph);
    assert!(lists.insert(Version::new(1, 0, 0, 0), a).is_ok());
    assert!(lists.insert(Version::new(1, 1, 0, 0), b).is_ok());
    let mut bins = AddressBins::new();
    let _ = bins.insert(Version::new(1, 0, 0, 0), AddressBin::new(vec![]));
    assert_eq!(versions_without_bin(&lists, &bins), vec![Version::new(1, 1, 0, 0)]);
}

#[test]
fn version_order_and_components() {
    let a = Version::new(1, 2, 3, 4);
    assert_eq!((a.index(0), a.index(1), a.index(2), a.index(3)), (1, 2, 3, 4));
    assert!(Version::new(1, 0, 9, 9).lt(&Version::new(1, 1, 0, 0)));
    assert!(!Version::new(1, 1, 0, 0).lt(&Version::new(1, 1, 0, 0)));
}

#[test]
fn input_directory_checks() {
    assert_eq!(input_directory_validator(false, false), Err(InputDirError::Missing));
    assert_eq!(input_directory_validator(true, false), Err(InputDirError::NotADirectory));
    assert_eq!(input_directory_validator(true, true), Ok(()));
}

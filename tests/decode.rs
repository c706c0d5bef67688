use as_bottleneck::address::{Address, AddressMap, IpAddress};
use as_bottleneck::aggregate::ingest_rib_entry;
use as_bottleneck::bottleneck::PathMap;
use as_bottleneck::decode::{
    as_path_from_bgp_attributes, dedup, read_attribute_header, read_be_u16, read_be_u32,
    DecodeError,
};

fn asn_bytes(asns: &[u32]) -> Vec<u8> {
    asns.iter().flat_map(|a| a.to_be_bytes()).collect()
}

fn as_path_attribute(segment_type: u8, asns: &[u32]) -> Vec<u8> {
    let mut value = vec![segment_type, asns.len() as u8];
    value.extend(asn_bytes(asns));
    let mut attr = vec![0x40, 2, value.len() as u8];
    attr.extend(value);
    attr
}

#[test]
fn reads_big_endian_integers() {
    assert_eq!(read_be_u16(&[0x01, 0x02], 0), 0x0102);
    assert_eq!(read_be_u32(&[0xff, 0x00, 0xfb, 0x0f, 0x12, 0x34], 1), 0x00fb_0f12);
    assert_eq!(read_be_u32(&[0xff, 0xff, 0xff, 0xff], 0), u32::MAX);
}

#[test]
fn one_byte_length_without_extended_flag() {
    let blob = vec![0x40, 1, 0xfe, 0x00];
    let h = read_attribute_header(&blob, 0).unwrap();
    assert_eq!(h.type_code, 1);
    assert_eq!(h.length, 0xfe);
    assert_eq!(h.value_start, 3);
}

#[test]
fn two_byte_length_with_extended_flag() {
    let blob = vec![0x50, 2, 0x01, 0x02, 0x00];
    let h = read_attribute_header(&blob, 0).unwrap();
    assert_eq!(h.type_code, 2);
    assert_eq!(h.length, 0x0102);
    assert_eq!(h.value_start, 4);
    assert_eq!(read_attribute_header(&[0x50, 2, 0x01], 0), Err(DecodeError::Truncated));
}

#[test]
fn decodes_sequence_in_order() {
    let blob = as_path_attribute(2, &[64271, 62240, 3356]);
    assert_eq!(as_path_from_bgp_attributes(blob), Ok(vec![64271, 62240, 3356]));
}

#[test]
fn decodes_after_skipped_attributes() {
    let mut blob = vec![0x40, 1, 1, 0];
    blob.extend([0x50, 3, 0x00, 0x04, 10, 0, 0, 1]);
    blob.extend(as_path_attribute(2, &[7, 7, 9]));
    blob.extend([0x40, 5, 4, 0, 0, 0, 100]);
    assert_eq!(as_path_from_bgp_attributes(blob), Ok(vec![7, 7, 9]));
}

#[test]
fn extended_length_as_path() {
    let mut blob = vec![0x50, 2, 0x00, 10, 2, 2];
    blob.extend(asn_bytes(&[1, 0x01020304]));
    assert_eq!(as_path_from_bgp_attributes(blob), Ok(vec![1, 0x01020304]));
}

#[test]
fn lone_as_set_is_missing_as_path() {
    let blob = as_path_attribute(1, &[10, 20]);
    assert_eq!(as_path_from_bgp_attributes(blob), Err(DecodeError::MissingAsPath));
}

#[test]
fn as_set_skipped_before_sequence() {
    let mut value = vec![1, 1];
    value.extend(asn_bytes(&[99]));
    value.extend([2, 2]);
    value.extend(asn_bytes(&[5, 6]));
    let mut blob = vec![0x40, 2, value.len() as u8];
    blob.extend(value);
    assert_eq!(as_path_from_bgp_attributes(blob), Ok(vec![5, 6]));
}

#[test]
fn empty_blob_is_missing_all_attributes() {
    assert_eq!(as_path_from_bgp_attributes(vec![]), Err(DecodeError::MissingAllAttributes));
}

#[test]
fn only_skipped_attributes_is_missing_as_path() {
    let blob = vec![0x40, 1, 1, 0, 0x40, 3, 4, 1, 2, 3, 4];
    assert_eq!(as_path_from_bgp_attributes(blob), Err(DecodeError::MissingAsPath));
}

#[test]
fn unknown_type_code_is_reported() {
    let blob = vec![0x40, 17, 0];
    assert_eq!(as_path_from_bgp_attributes(blob), Err(DecodeError::UnknownTypeCode(17)));
    let blob = vec![0x40, 0, 0];
    assert_eq!(as_path_from_bgp_attributes(blob), Err(DecodeError::UnknownTypeCode(0)));
}

#[test]
fn unknown_segment_type_is_reported() {
    let blob = vec![0x40, 2, 2, 3, 0];
    assert_eq!(as_path_from_bgp_attributes(blob), Err(DecodeError::UnknownAsValue(3)));
}

#[test]
fn truncated_fields_are_reported() {
    assert_eq!(as_path_from_bgp_attributes(vec![0x40, 1]), Err(DecodeError::Truncated));
    assert_eq!(as_path_from_bgp_attributes(vec![0x40, 1, 5, 0]), Err(DecodeError::Truncated));
    assert_eq!(as_path_from_bgp_attributes(vec![0x40, 2, 6, 2, 2, 0, 0, 0, 1]), Err(DecodeError::Truncated));
    assert_eq!(as_path_from_bgp_attributes(vec![0x40, 2, 4, 2, 2, 0, 0]), Err(DecodeError::Truncated));
}

#[test]
fn dedup_collapses_adjacent_repeats_only() {
    let mut path = vec![7, 7, 9, 9, 7];
    dedup(&mut path);
    assert_eq!(path, vec![7, 9, 7]);
    let mut empty: Vec<u32> = vec![];
    dedup(&mut empty);
    assert_eq!(empty, Vec::<u32>::new());
}

#[test]
fn ingests_rib_entries() {
    let peer = Address::new(IpAddress::V4(0x0a000001), None);
    let mut addresses = vec![peer];
    let mut m: PathMap = AddressMap::new();
    let blob = as_path_attribute(2, &[1, 1, 2, 3, 3]);
    assert_eq!(ingest_rib_entry(&mut addresses, 0, 24, blob, &mut m), Ok(()));
    let key = Address::new(IpAddress::V4(0x0a000001), Some(24));
    assert_eq!(addresses[0], key);
    assert_eq!(m.get(&key), Some(&vec![vec![1, 2, 3]]));

    let bad = vec![0x40, 99, 0];
    assert_eq!(
        ingest_rib_entry(&mut addresses, 0, 16, bad, &mut m),
        Err(DecodeError::UnknownTypeCode(99))
    );
    assert_eq!(addresses[0].mask, Some(16));
    assert_eq!(m.keys(), vec![key]);
}

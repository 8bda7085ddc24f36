use kotoclip_core::dictionary::bundle::{
    check_block_count, check_header, check_record_counts, decode_u32_le, decode_u64_le,
    inflate_metadata, is_bundle_magic, parse_metadata, BundleError, BundleHeader,
    EntryKeyRecord, MetadataError, MetadataRecord, SCHEMA_VERSION,
};
use std::io::Write;

fn text(out: &mut Vec<u8>, value: &str) {
    out.extend_from_slice(&(value.len() as u32).to_le_bytes());
    out.extend_from_slice(value.as_bytes());
}

fn header() -> BundleHeader {
    BundleHeader {
        format_version: 1,
        schema_version: SCHEMA_VERSION,
        source_name: "大辞林".to_string(),
        bundle_id: "id".to_string(),
        canonical_count: 1,
        alias_count: 1,
        definition_block_count: 2,
        metadata_uncompressed_size: 10,
    }
}

fn sample_metadata() -> Vec<u8> {
    let mut bytes = Vec::new();
    bytes.push(0);
    text(&mut bytes, "立つ");
    bytes.extend_from_slice(&3u32.to_le_bytes());
    bytes.extend_from_slice(&16u32.to_le_bytes());
    bytes.extend_from_slice(&40u32.to_le_bytes());
    bytes.extend_from_slice(&1u16.to_le_bytes());
    text(&mut bytes, "たつ");
    bytes.extend_from_slice(&u32::MAX.to_le_bytes());
    bytes.extend_from_slice(&7u16.to_le_bytes());
    bytes.extend_from_slice(&1u16.to_le_bytes());
    text(&mut bytes, "立つ");
    text(&mut bytes, "立つ");
    bytes.extend_from_slice(&2u16.to_le_bytes());
    bytes.push(1);
    text(&mut bytes, "起つ");
    bytes.extend_from_slice(&u32::MAX.to_le_bytes());
    text(&mut bytes, "立つ");
    bytes.extend_from_slice(&0u16.to_le_bytes());
    bytes.extend_from_slice(&1u16.to_le_bytes());
    text(&mut bytes, "おきつ");
    bytes
}

#[test]
fn metadata_records_are_read_in_order() {
    let records = parse_metadata(&sample_metadata()).unwrap();
    assert_eq!(
        records,
        vec![
            MetadataRecord::Canonical {
                headword: "立つ".to_string(),
                block_id: 3,
                offset: 16,
                length: 40,
                keys: vec![
                    EntryKeyRecord { kind: 0, normalized_value: "たつ".to_string(), display_value: None, rank: 7 },
                    EntryKeyRecord { kind: 1, normalized_value: "立つ".to_string(), display_value: Some("立つ".to_string()), rank: 2 },
                ],
            },
            MetadataRecord::Alias {
                alias: "起つ".to_string(),
                normalized_alias: None,
                target: "立つ".to_string(),
                keys: vec![(1, "おきつ".to_string())],
            },
        ]
    );
    assert_eq!(check_record_counts(&header(), &records), Ok(()));
    let mut other = header();
    other.alias_count = 2;
    assert_eq!(check_record_counts(&other, &records), Err(BundleError::RecordCountMismatch));
}

#[test]
fn malformed_metadata_is_refused() {
    let bytes = sample_metadata();
    assert_eq!(parse_metadata(&bytes[..bytes.len() - 1]), Err(MetadataError::Truncated));
    assert_eq!(parse_metadata(&[9]), Err(MetadataError::UnknownRecord(9)));
    assert_eq!(MetadataError::UnknownRecord(9).message(), "未知词典 metadata 记录类型：9");
    let mut invalid = vec![0u8];
    invalid.extend_from_slice(&2u32.to_le_bytes());
    invalid.extend_from_slice(&[0xff, 0xfe]);
    assert_eq!(parse_metadata(&invalid), Err(MetadataError::InvalidText));
    assert_eq!(parse_metadata(&[]), Ok(Vec::new()));
}

#[test]
fn header_magic_and_sizes_are_checked() {
    assert!(is_bundle_magic(b"KDICT\0\x01\0"));
    assert!(!is_bundle_magic(b"KDICT\0\x02\0"));
    assert_eq!(check_header(&header(), 10), Ok(()));
    assert_eq!(check_header(&header(), 11), Err(BundleError::MetadataSizeMismatch));
    let mut old = header();
    old.schema_version = 3;
    let error = check_header(&old, 10).unwrap_err();
    assert_eq!(error.message(), "词典源包版本不兼容：format=1 schema=3");
    assert_eq!(check_block_count(&header(), 2), Ok(()));
    assert_eq!(check_block_count(&header(), 3), Err(BundleError::BlockCountMismatch));
    assert_eq!(decode_u32_le(&[1, 2, 0, 0]), 513);
    assert_eq!(decode_u64_le(&[0, 0, 0, 0, 1, 0, 0, 0]), 1u64 << 32);
}

#[test]
fn metadata_section_inflates_to_the_announced_size() {
    let mut encoder = flate2::write::ZlibEncoder::new(Vec::new(), flate2::Compression::default());
    encoder.write_all(b"metadata").unwrap();
    let compressed = encoder.finish().unwrap();
    assert_eq!(inflate_metadata(&compressed, 8).unwrap(), b"metadata".to_vec());
    assert_eq!(inflate_metadata(&compressed, 9), Err(BundleError::MetadataLengthMismatch));
    assert_eq!(inflate_metadata(b"not zlib", 8), Err(BundleError::MetadataCorrupt));
}

use gfs_master::chunk_id::{chunk_id_text, group_from_text, group_to_text, parse_chunk_id};
use gfs_master::error::FsError;

#[test]
fn text_is_hyphenated_lower_case() {
    assert_eq!(
        chunk_id_text(0xa1a2a3a4b1b2c1c2d1d2d3d4d5d6d7d8),
        "a1a2a3a4-b1b2-c1c2-d1d2-d3d4d5d6d7d8"
    );
    assert_eq!(chunk_id_text(0), "00000000-0000-0000-0000-000000000000");
    assert_eq!(chunk_id_text(u128::MAX), "ffffffff-ffff-ffff-ffff-ffffffffffff");
    assert_eq!(chunk_id_text(0x0123456789abcdef0123456789abcdef), "01234567-89ab-cdef-0123-456789abcdef");
}

#[test]
fn text_agrees_with_the_uuid_crate() {
    for id in [1u128, 0x550e8400e29b41d4a716446655440000, 0xdeadbeef << 64] {
        assert_eq!(chunk_id_text(id), uuid::Uuid::from_u128(id).to_string());
    }
}

#[test]
fn parse_reads_the_text_back() {
    for id in [0u128, 1, 0x550e8400e29b41d4a716446655440000, u128::MAX] {
        assert_eq!(parse_chunk_id(&chunk_id_text(id)), Ok(id));
    }
}

#[test]
fn parse_reads_the_other_forms() {
    let id = 0x550e8400e29b41d4a716446655440000u128;
    assert_eq!(parse_chunk_id("550e8400e29b41d4a716446655440000"), Ok(id));
    assert_eq!(parse_chunk_id("550E8400-E29B-41D4-A716-446655440000"), Ok(id));
    assert_eq!(parse_chunk_id("{550e8400-e29b-41d4-a716-446655440000}"), Ok(id));
    assert_eq!(parse_chunk_id("urn:uuid:550e8400-e29b-41d4-a716-446655440000"), Ok(id));
}

#[test]
fn parse_rejects_what_is_no_identifier() {
    for text in ["", "abc", "550e8400-e29b-41d4-a716-44665544000", "550e8400-e29b-41d4-a716-44665544000g", "é"] {
        assert_eq!(parse_chunk_id(text), Err(FsError::InvalidInput));
    }
}

#[test]
fn groups_convert_both_ways() {
    let group = vec![1u128, 2, 0xffu128 << 120];
    let texts = group_to_text(&group);
    assert_eq!(texts.len(), 3);
    assert_eq!(texts[0], "00000000-0000-0000-0000-000000000001");
    assert_eq!(group_from_text(&texts), Ok(group));
    assert_eq!(group_from_text(&vec![]), Ok(vec![]));
    let mut bad = texts.clone();
    bad.push("nope".to_string());
    assert_eq!(group_from_text(&bad), Err(FsError::InvalidInput));
}

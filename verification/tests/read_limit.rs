use supertable::manifest::part::{
    decode, decode_within, encode, ManifestPart, PartId, PartParseError, FORMAT_VERSION,
};

#[test]
fn a_process_can_read_less() {
    let part = ManifestPart {
        format_version: FORMAT_VERSION.to_string(),
        part_id: PartId(7),
        superfiles: Vec::new(),
    };
    let bytes = encode(&part, 3);
    assert_eq!(apache_avro::util::max_allocation_bytes(8), 8);
    let (limit, read) = decode_within(&bytes);
    assert_eq!(limit, 8);
    assert!(matches!(read, Err(PartParseError::Avro(_))));
    assert!(decode(&bytes).is_err());
}

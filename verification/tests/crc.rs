use s3_archiving::crc::decode_s3_crc32;

#[test]
fn decodes_live_s3_value() {
    // Live value observed from `head-object --checksum-mode ENABLED` on a test object.
    // base64 "ou5p3A==" -> bytes a2 ee 69 dc -> big-endian u32 0xA2EE69DC.
    assert_eq!(decode_s3_crc32("ou5p3A=="), Some(0xA2EE_69DC));
}

#[test]
fn rejects_wrong_length() {
    // "AAAA" decodes to 3 bytes, not 4 -> None.
    assert_eq!(decode_s3_crc32("AAAA"), None);
}

#[test]
fn rejects_malformed() {
    assert_eq!(decode_s3_crc32("not!base64!!"), None);
    assert_eq!(decode_s3_crc32("abc"), None); // not multiple of 4
}

#[test]
fn roundtrip_known_crc() {
    // A 4-byte value 0x01020304 big-endian is bytes 01 02 03 04 -> base64 "AQIDBA=="
    assert_eq!(decode_s3_crc32("AQIDBA=="), Some(0x0102_0304));
}

#[test]
fn padding_stands_at_the_end_only() {
    assert_eq!(decode_s3_crc32("AQ==AQID"), None);
    assert_eq!(decode_s3_crc32("AQ==AQ=="), None);
    assert_eq!(decode_s3_crc32("AQI=AQI="), None);
    assert_eq!(decode_s3_crc32("AQ=BAQ=B"), None);
    assert_eq!(decode_s3_crc32("AQIDB==="), None);
    assert_eq!(decode_s3_crc32("AQIDAQ=="), Some(0x0102_0301));
}

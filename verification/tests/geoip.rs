use lib::geoip::{
    country_code, parse_db, GeoIpDb, GEOIP_COUNTRY_BEGIN, GEOIP_COUNTRY_EDITION,
};

// Build a minimal .dat buffer containing the Country edition marker.
fn make_country_dat() -> Vec<u8> {
    let mut data = vec![0u8; 16];
    data.extend_from_slice(&[0xFF, 0xFF, 0xFF, GEOIP_COUNTRY_EDITION]);
    data
}

#[test]
fn parse_rejects_too_short() {
    assert!(parse_db(vec![0u8; 9]).is_none());
}

#[test]
fn parse_rejects_missing_marker() {
    assert!(parse_db(vec![0u8; 20]).is_none());
}

#[test]
fn parse_rejects_wrong_edition() {
    let mut data = vec![0u8; 16];
    data.extend_from_slice(&[0xFF, 0xFF, 0xFF, 0x02]); // edition 2 = City
    assert!(parse_db(data).is_none());
}

#[test]
fn parse_accepts_country_edition() {
    assert!(parse_db(make_country_dat()).is_some());
}

#[test]
fn lookup_returns_none_on_empty_data() {
    let db = GeoIpDb { data: vec![0u8; 1], segments: GEOIP_COUNTRY_BEGIN };
    assert!(db.lookup_country_id(0).is_none());
}

#[test]
fn lookup_returns_country_id() {
    // Single-node trie: both branches resolve immediately.
    // Record value 0xFFFF01 in little-endian = GEOIP_COUNTRY_BEGIN + 1 = country index 1.
    let mut data = vec![0u8; 6];
    data[0] = 0x01; data[1] = 0xFF; data[2] = 0xFF; // left branch
    data[3] = 0x01; data[4] = 0xFF; data[5] = 0xFF; // right branch
    let db = GeoIpDb { data, segments: GEOIP_COUNTRY_BEGIN };
    assert_eq!(db.lookup_country_id(0x00000000), Some(1));
    assert_eq!(db.lookup_country_id(0x80000000), Some(1));
}

#[test]
fn parse_keeps_data_and_segment_base() {
    let data = make_country_dat();
    let db = parse_db(data.clone()).unwrap();
    assert_eq!(db.data, data);
    assert_eq!(db.segments, GEOIP_COUNTRY_BEGIN);
}

#[test]
fn parse_uses_first_marker_only() {
    // The first marker names edition 2; a later Country marker is ignored.
    let mut data = vec![0u8; 16];
    data.extend_from_slice(&[0xFF, 0xFF, 0xFF, 0x02, 0xFF, 0xFF, 0xFF, 0x01]);
    assert!(parse_db(data).is_none());
}

#[test]
fn parse_ignores_marker_before_last_hundred_bytes() {
    let mut data = vec![0xFF, 0xFF, 0xFF, GEOIP_COUNTRY_EDITION];
    data.extend(std::iter::repeat(0u8).take(100));
    assert!(parse_db(data).is_none());

    let mut data = vec![0u8; 200];
    data[100] = 0xFF;
    data[101] = 0xFF;
    data[102] = 0xFF;
    data[103] = GEOIP_COUNTRY_EDITION;
    assert!(parse_db(data).is_some());
}

#[test]
fn parse_needs_edition_byte_inside_file() {
    // A marker in the last three bytes has no edition byte after it.
    let mut data = vec![0u8; 17];
    data.extend_from_slice(&[0xFF, 0xFF, 0xFF]);
    assert!(parse_db(data).is_none());
}

#[test]
fn parse_accepts_exactly_ten_bytes() {
    let data = vec![0, 0, 0, 0, 0, 0, 0xFF, 0xFF, 0xFF, 1];
    assert!(parse_db(data).is_some());
}

/// A trie of two levels: the root sends bit 31 = 0 to node 1 and bit 31 = 1
/// straight to country 225 (US); node 1 sends bit 30 = 0 to country 48 (CN)
/// and bit 30 = 1 to country 0 (no country).
fn two_level_db() -> GeoIpDb {
    let rec = |v: u32| [(v & 0xFF) as u8, ((v >> 8) & 0xFF) as u8, ((v >> 16) & 0xFF) as u8];
    let mut data = Vec::new();
    data.extend_from_slice(&rec(1));
    data.extend_from_slice(&rec(GEOIP_COUNTRY_BEGIN + 225));
    data.extend_from_slice(&rec(GEOIP_COUNTRY_BEGIN + 48));
    data.extend_from_slice(&rec(GEOIP_COUNTRY_BEGIN));
    GeoIpDb { data, segments: GEOIP_COUNTRY_BEGIN }
}

#[test]
fn lookup_follows_bits_from_the_top() {
    let db = two_level_db();
    assert_eq!(db.lookup_country_id(0x0000_0000), Some(48));
    assert_eq!(db.lookup_country_id(0x3FFF_FFFF), Some(48));
    assert_eq!(db.lookup_country_id(0x4000_0000), Some(0));
    assert_eq!(db.lookup_country_id(0x8000_0000), Some(225));
    assert_eq!(db.lookup_country_id(0xFFFF_FFFF), Some(225));
}

#[test]
fn lookup_stops_at_record_past_the_end() {
    // Root points at node 5, which lies beyond the data.
    let db = GeoIpDb { data: vec![5, 0, 0, 5, 0, 0], segments: GEOIP_COUNTRY_BEGIN };
    assert_eq!(db.lookup_country_id(0x1234_5678), None);
}

#[test]
fn lookup_gives_up_after_32_bits() {
    // Every record points back at the root.
    let db = GeoIpDb { data: vec![0u8; 6], segments: GEOIP_COUNTRY_BEGIN };
    assert_eq!(db.lookup_country_id(0xDEAD_BEEF), None);
}

#[test]
fn country_codes_by_index() {
    assert_eq!(country_code(0), None);
    assert_eq!(country_code(1), Some(*b"AP"));
    assert_eq!(country_code(48), Some(*b"CN"));
    assert_eq!(country_code(225), Some(*b"US"));
    assert_eq!(country_code(254), Some(*b"SS"));
    assert_eq!(country_code(255), None);
    assert_eq!(country_code(256), None);
    assert_eq!(country_code(100_000), None);
}

#[test]
fn country_code_by_addr_answers() {
    let db = two_level_db();
    assert_eq!(db.country_code_by_addr(b"8.8.8.8"), Some(*b"CN"));
    assert_eq!(db.country_code_by_addr(b"200.1.2.3"), Some(*b"US"));
    assert_eq!(db.country_code_by_addr(b"1.2.3.4"), Some(*b"CN"));
    // Index 0 denotes no country.
    assert_eq!(db.country_code_by_addr(b"64.0.0.1"), None);
}

#[test]
fn country_code_by_addr_rejects_hostnames() {
    let db = two_level_db();
    assert_eq!(db.country_code_by_addr(b"example.com"), None);
    assert_eq!(db.country_code_by_addr(b"localhost"), None);
    assert_eq!(db.country_code_by_addr(b""), None);
    assert_eq!(db.country_code_by_addr(b"1.2.3"), None);
    assert_eq!(db.country_code_by_addr(b"1.2.3.256"), None);
}

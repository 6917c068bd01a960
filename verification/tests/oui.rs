use mac_oui::{decode_block_notation, mac_to_u64, read_into_db, string_to_bool, Oui, OuiError,
    RawRow};

fn row(oui: &str, is_private: &str, name: &str, size: &str) -> RawRow {
    RawRow {
        oui: String::from(oui),
        is_private: String::from(is_private),
        company_name: String::from(name),
        company_address: String::from("123 Example Street"),
        country_code: String::from("US"),
        assignment_block_size: String::from(size),
        date_created: String::from("2015-08-27"),
        date_updated: String::from("2015-08-27"),
    }
}

fn load(rows: Vec<RawRow>) -> Result<Oui, OuiError> {
    read_into_db(&rows)
}

#[test]
fn test_decode_default_mask() {
    let d = decode_block_notation("70:B3:D5").unwrap();
    assert_eq!(d.mask, 24);
    assert_eq!(d.start, 0x70B3D5000000);
    assert_eq!(d.end, 0x70B3D5FFFFFF);
    assert_eq!(d.end - d.start + 1, 1u64 << 24);
}

#[test]
fn test_decode_separators_and_case() {
    let a = decode_block_notation("70-b3-d5").unwrap();
    let b = decode_block_notation("70.B3.d5").unwrap();
    let c = decode_block_notation("70B3D5").unwrap();
    assert_eq!(a, b);
    assert_eq!(b, c);
    assert_eq!(c.start, 0x70B3D5000000);
}

#[test]
fn test_decode_explicit_mask() {
    let d = decode_block_notation("70:B3:D5:20/28").unwrap();
    assert_eq!(d.mask, 28);
    // A non-24 mask takes the value as the full prefix as given.
    assert_eq!(d.start, 0x70B3D520);
    assert_eq!(d.end, 0x70BFFFFF);
}

#[test]
fn test_decode_explicit_24_shifts() {
    let d = decode_block_notation("70:B3:D5/24").unwrap();
    assert_eq!(d.start, 0x70B3D5000000);
    assert_eq!(d.end, 0x70B3D5FFFFFF);
}

#[test]
fn test_decode_mask_boundaries() {
    let low = decode_block_notation("AA/8").unwrap();
    assert_eq!(low.start, 0xAA);
    assert_eq!(low.end, 0xFFFFFFFFFF);

    // With a start aligned to the block size the width is exactly 2^40.
    let aligned = decode_block_notation("AA:00:00:00:00:00/8").unwrap();
    assert_eq!(aligned.start, 0xAA0000000000);
    assert_eq!(aligned.end - aligned.start + 1, 1u64 << 40);

    let high = decode_block_notation("AA/48").unwrap();
    assert_eq!(high.start, 0xAA);
    assert_eq!(high.end, 0xAA);

    assert!(matches!(
        decode_block_notation("AA/7"),
        Err(OuiError::InvalidMask(_))
    ));
    assert!(matches!(
        decode_block_notation("AA/49"),
        Err(OuiError::InvalidMask(_))
    ));
}

#[test]
fn test_decode_malformed() {
    assert!(matches!(
        decode_block_notation("GG:HH:II"),
        Err(OuiError::MalformedBlockNotation(_))
    ));
    assert!(matches!(
        decode_block_notation(""),
        Err(OuiError::MalformedBlockNotation(_))
    ));
    assert!(matches!(
        decode_block_notation("AA/24/7"),
        Err(OuiError::MalformedBlockNotation(_))
    ));
    assert!(matches!(
        decode_block_notation("AA/"),
        Err(OuiError::MalformedBlockNotation(_))
    ));
    assert!(matches!(
        decode_block_notation("AA/2x"),
        Err(OuiError::MalformedBlockNotation(_))
    ));
    assert!(matches!(
        decode_block_notation(":::"),
        Err(OuiError::MalformedBlockNotation(_))
    ));
}

#[test]
fn test_decode_value_too_wide() {
    // More than 24 bits of value under the default 24-bit mask cannot
    // stand in the top 24 bits of the address space.
    assert!(matches!(
        decode_block_notation("70:B3:D5:20"),
        Err(OuiError::MalformedBlockNotation(_))
    ));
    // More than 48 bits of value never fits the address space.
    assert!(matches!(
        decode_block_notation("70:B3:D5:E7:4F:81:99/32"),
        Err(OuiError::MalformedBlockNotation(_))
    ));
}

#[test]
fn test_mac_to_u64() {
    let b: [u8; 6] = [0x70, 0xB3, 0xD5, 0xE7, 0x4F, 0x81];
    assert_eq!(mac_to_u64(&b), 0x70B3D5E74F81);
    let zero: [u8; 6] = [0, 0, 0, 0, 0, 0];
    assert_eq!(mac_to_u64(&zero), 0);
}

#[test]
fn test_string_to_bool() {
    assert!(string_to_bool("1"));
    assert!(!string_to_bool("0"));
    assert!(!string_to_bool("true"));
    assert!(!string_to_bool(""));
    assert!(!string_to_bool("11"));
}

#[test]
fn test_lookup_by_mac_single_row() {
    let db = load(vec![row(
        "70:B3:D5",
        "0",
        "Ieee Registration Authority",
        "MA-L",
    )])
    .unwrap();
    let res = db.lookup_by_mac("70:B3:D5:E7:4F:81").unwrap();
    assert_eq!(res.unwrap().company_name, "Ieee Registration Authority");
    // The original textual form is kept on the entry.
    let res2 = db.lookup_by_mac("70:B3:D5:e7:4f:81").unwrap();
    assert_eq!(res2.unwrap().oui, "70:B3:D5");
}

#[test]
fn test_lookup_by_mac_miss() {
    let db = load(vec![row("70:B3:D5", "0", "Acme", "MA-L")]).unwrap();
    let res = db.lookup_by_mac("00:00:00:00:00:01").unwrap();
    assert!(res.is_none());
}

#[test]
fn test_lookup_by_mac_bad_literal() {
    let db = load(vec![row("70:B3:D5", "0", "Acme", "MA-L")]).unwrap();
    assert!(matches!(
        db.lookup_by_mac("not a mac"),
        Err(OuiError::AddressParseError(_))
    ));
}

#[test]
fn test_malformed_row_aborts_load() {
    let r = load(vec![
        row("70:B3:D5", "0", "Acme", "MA-L"),
        row("ZZ:ZZ:ZZ", "0", "Broken", "MA-L"),
    ]);
    assert!(matches!(r, Err(OuiError::MalformedBlockNotation(_))));
}

#[test]
fn test_invalid_mask_aborts_load() {
    let r = load(vec![
        row("70:B3:D5", "0", "Acme", "MA-L"),
        row("AA:BB:CC/50", "0", "Broken", "MA-L"),
    ]);
    assert!(matches!(r, Err(OuiError::InvalidMask(_))));
}

#[test]
fn test_lookup_by_manufacturer_order() {
    let db = load(vec![
        row("00:11:22", "0", "Acme", "MA-L"),
        row("33:44:55", "0", "Other", "MA-L"),
        row("66:77:88", "0", "Acme", "MA-L"),
    ])
    .unwrap();
    let entries = db.lookup_by_manufacturer("Acme").unwrap().unwrap();
    assert_eq!(entries.len(), 2);
    assert_eq!(entries[0].oui, "00:11:22");
    assert_eq!(entries[1].oui, "66:77:88");
    assert!(db.lookup_by_manufacturer("acme").unwrap().is_none());
    assert!(db.lookup_by_manufacturer("Nobody").unwrap().is_none());
}

#[test]
fn test_summaries() {
    let db = load(vec![
        row("00:11:22", "0", "Acme", "MA-L"),
        row("33:44:55", "0", "Other", "MA-L"),
        row("66:77:88", "0", "Acme", "MA-L"),
        row("66:77:88", "0", "Third", "MA-L"),
    ])
    .unwrap();
    assert_eq!(db.get_total_records(), 4);
    let manufacturers = db.get_unique_manufacturers().unwrap();
    assert_eq!(manufacturers.len(), 3);
    assert_eq!(manufacturers, vec!["Acme", "Other", "Third"]);
    let ouis = db.get_unique_ouis().unwrap();
    assert_eq!(ouis.len(), 3);
    assert_eq!(ouis, vec!["00:11:22", "33:44:55", "66:77:88"]);
}

#[test]
fn test_load_twice_identical() {
    let rows1 = vec![
        row("70:B3:D5", "0", "Acme", "MA-L"),
        row("00:11:22", "0", "Other", "MA-L"),
    ];
    let rows2 = vec![
        row("70:B3:D5", "0", "Acme", "MA-L"),
        row("00:11:22", "0", "Other", "MA-L"),
    ];
    let db1 = load(rows1).unwrap();
    let db2 = load(rows2).unwrap();
    assert_eq!(db1.get_total_records(), db2.get_total_records());
    assert_eq!(
        db1.get_unique_manufacturers().unwrap(),
        db2.get_unique_manufacturers().unwrap()
    );
    assert_eq!(db1.get_unique_ouis().unwrap(), db2.get_unique_ouis().unwrap());
    let r1 = db1.lookup_by_mac("70:B3:D5:00:00:01").unwrap().unwrap();
    let r2 = db2.lookup_by_mac("70:B3:D5:00:00:01").unwrap().unwrap();
    assert_eq!(r1.company_name, r2.company_name);
    assert_eq!(r1.oui, r2.oui);
}

#[test]
fn test_overlap_most_recent_wins() {
    // A coarse 24-bit block with an individual /28 block nested inside it.
    let coarse = row("70:B3:D5", "0", "Coarse", "MA-L");
    let nested = row("70:B3:D5:20:00:00/28", "0", "Nested", "IAB");

    // Nested inserted after coarse: it wins on its own range.
    let db = load(vec![coarse, nested]).unwrap();
    let inside = db.lookup_by_mac("70:B3:D5:23:45:67").unwrap().unwrap();
    assert_eq!(inside.company_name, "Nested");
    let outside = db.lookup_by_mac("70:B3:D5:E7:4F:81").unwrap().unwrap();
    assert_eq!(outside.company_name, "Coarse");

    // Coarse inserted after nested: the later, coarser block wins
    // everywhere it reaches.
    let db2 = load(vec![
        row("70:B3:D5:20:00:00/28", "0", "Nested", "IAB"),
        row("70:B3:D5", "0", "Coarse", "MA-L"),
    ])
    .unwrap();
    let inside2 = db2.lookup_by_mac("70:B3:D5:23:45:67").unwrap().unwrap();
    assert_eq!(inside2.company_name, "Coarse");
}

#[test]
fn test_mask_48_single_address() {
    let db = load(vec![row("70:B3:D5:AA:BB:CC/48", "0", "OneDevice", "IAB")]).unwrap();
    let hit = db.lookup_by_mac("70:B3:D5:AA:BB:CC").unwrap();
    assert_eq!(hit.unwrap().company_name, "OneDevice");
    let miss = db.lookup_by_mac("70:B3:D5:AA:BB:CD").unwrap();
    assert!(miss.is_none());
}

#[test]
fn test_private_flag_coercion() {
    let db = load(vec![
        row("00:11:22", "1", "Private Co", "MA-L"),
        row("33:44:55", "0", "Public Co", "MA-L"),
        row("66:77:88", "yes", "Odd Flag Co", "MA-L"),
    ])
    .unwrap();
    let private = db.lookup_by_mac("00:11:22:00:00:00").unwrap().unwrap();
    assert!(private.is_private);
    let public = db.lookup_by_mac("33:44:55:00:00:00").unwrap().unwrap();
    assert!(!public.is_private);
    let odd = db.lookup_by_mac("66:77:88:00:00:00").unwrap().unwrap();
    assert!(!odd.is_private);
}

use drcov::{from_bytes, to_writer, CoverageData, Error, ModuleEntry};

fn parse(bytes: impl AsRef<[u8]>) -> Result<drcov::CoverageData, drcov::Error> {
    from_bytes(&bytes.as_ref().to_vec())
}

#[test]
fn test_decode_rejects_dangling_block_reference() {
    // Structurally well-formed file whose single block references module 5
    let header = "DRCOV VERSION: 2\nDRCOV FLAVOR: test\nModule Table: 1\n0, 0x400000, 0x500000, 0x401000, /bin/test\nBB Table: 1 bbs\n";
    let mut data = Vec::new();
    data.extend_from_slice(header.as_bytes());
    data.extend_from_slice(&0x1000u32.to_le_bytes());
    data.extend_from_slice(&32u16.to_le_bytes());
    data.extend_from_slice(&5u16.to_le_bytes());

    assert!(matches!(parse(data), Err(Error::ValidationError(_))));
}

#[test]
fn test_writer_rejects_invalid_aggregate() {
    // An aggregate built outside the builder with a duplicate module id
    let mut bad = CoverageData::default();
    bad.modules.push(ModuleEntry {
        id: 0,
        ..Default::default()
    });
    bad.modules.push(ModuleEntry {
        id: 0,
        ..Default::default()
    });

    let mut buffer = Vec::new();
    let r = to_writer(&bad, &mut buffer);
    assert!(matches!(r, Err(Error::ValidationError(_))));
    assert!(buffer.is_empty()); // nothing was written
}

#[test]
fn test_repeated_hex_prefixes_are_stripped() {
    // Hexadecimal fields strip every leading `0x` repetition
    let content = "DRCOV VERSION: 2\nDRCOV FLAVOR: test\nModule Table: 1\n0, 0x0x10, 0x20, 0x30, /bin/test\nBB Table: 0 bbs\n";
    let coverage = parse(content).unwrap();
    assert_eq!(coverage.modules[0].base, 0x10);
}

#[test]
fn test_plus_signed_counts_are_accepted() {
    // Decimal parsing accepts a single leading plus sign, as str::parse does
    let content = "DRCOV VERSION: 2\nDRCOV FLAVOR: test\nModule Table: +1\n0, 0x400000, 0x500000, 0x401000, /bin/test\nBB Table: +0 bbs\n";
    let coverage = parse(content).unwrap();
    assert_eq!(coverage.modules.len(), 1);
    assert_eq!(coverage.basic_blocks.len(), 0);
}

#[test]
fn test_unparsable_address_defaults_to_zero() {
    // A malformed hexadecimal address is not an error; the field becomes zero
    let content = "DRCOV VERSION: 2\nDRCOV FLAVOR: test\nModule Table: 1\n0, zzz, 0x500000, 0x401000, /bin/test\nBB Table: 0 bbs\n";
    let coverage = parse(content).unwrap();
    assert_eq!(coverage.modules[0].base, 0);
    assert_eq!(coverage.modules[0].end, 0x500000);
}

#[test]
fn test_error_message_for_each_variant() {
    assert_eq!(
        Error::Io("stream ended".to_string()).message(),
        "I/O error: stream ended"
    );
    assert_eq!(
        Error::InvalidFormat("no prefix".to_string()).message(),
        "Invalid format: no prefix"
    );
    assert_eq!(
        Error::UnsupportedVersion(999).message(),
        "Unsupported drcov version: 999"
    );
    assert_eq!(
        Error::InvalidModuleTable("bad count".to_string()).message(),
        "Invalid module table: bad count"
    );
    assert_eq!(
        Error::InvalidBbTable("bad header".to_string()).message(),
        "Invalid basic block table: bad header"
    );
    assert_eq!(
        Error::ValidationError("bad id".to_string()).message(),
        "Validation error: bad id"
    );
}

#[test]
fn test_bb_header_count_token_only() {
    // Only the first whitespace-delimited token after the prefix counts;
    // decorative text after it is ignored
    let content = "DRCOV VERSION: 2\nDRCOV FLAVOR: test\nModule Table: 0\nBB Table: 0 entries of anything\n";
    let coverage = parse(content).unwrap();
    assert_eq!(coverage.basic_blocks.len(), 0);
}

#[test]
fn test_validation_message_names_id_and_index() {
    let mut bad = CoverageData::default();
    bad.modules.push(ModuleEntry {
        id: 0,
        ..Default::default()
    });
    bad.modules.push(ModuleEntry {
        id: 2,
        ..Default::default()
    });
    match bad.validate() {
        Err(Error::ValidationError(msg)) => {
            assert_eq!(msg, "non-sequential module id 2 at index 1");
        }
        other => panic!("expected a validation error, got {other:?}"),
    }
}

#[test]
fn test_validation_message_names_dangling_reference() {
    let mut bad = CoverageData::default();
    bad.modules.push(ModuleEntry {
        id: 0,
        ..Default::default()
    });
    bad.basic_blocks.push(drcov::BasicBlock {
        start: 0,
        size: 0,
        module_id: 7,
    });
    match bad.validate() {
        Err(Error::ValidationError(msg)) => {
            assert_eq!(msg, "basic block references unknown module id 7");
        }
        other => panic!("expected a validation error, got {other:?}"),
    }
}

#[test]
fn test_header_errors_name_the_expected_prefix() {
    match parse("") {
        Err(Error::InvalidFormat(msg)) => {
            assert_eq!(
                msg,
                "expected a header line with prefix DRCOV VERSION: , found end of input"
            );
        }
        other => panic!("expected an invalid-format error, got {other:?}"),
    }
    match parse("SOMETHING ELSE\n") {
        Err(Error::InvalidFormat(msg)) => {
            assert_eq!(msg, "header line lacks its required prefix: DRCOV VERSION: ");
        }
        other => panic!("expected an invalid-format error, got {other:?}"),
    }
    match parse("DRCOV VERSION: 2\n") {
        Err(Error::InvalidFormat(msg)) => {
            assert_eq!(
                msg,
                "expected a header line with prefix DRCOV FLAVOR: , found end of input"
            );
        }
        other => panic!("expected an invalid-format error, got {other:?}"),
    }
}

#[test]
fn test_record_id_error_names_expected_and_actual() {
    let content = "DRCOV VERSION: 2\nDRCOV FLAVOR: test\nModule Table: 2\n1, 0x400000, 0x500000, 0x401000, /bin/a\n0, 0x500000, 0x600000, 0x501000, /bin/b\nBB Table: 0 bbs\n";
    match parse(content) {
        Err(Error::InvalidModuleTable(msg)) => {
            assert_eq!(msg, "module record id is out of sequence: expected 0, got 1");
        }
        other => panic!("expected a module table error, got {other:?}"),
    }
}

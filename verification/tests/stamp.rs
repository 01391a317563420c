use maple_core::memory::{BufferSource, Region};
use maple_core::stamp::{fingerprint, parse_stamp, pe_machine, pe_timestamp, BuildStamp};

#[test]
fn fingerprint_is_stable_and_byte_sensitive() {
    let regions = [Region {
        base: 0x1000,
        size: 8,
    }];
    let a = BufferSource::new(0x1000, vec![1, 2, 3, 4, 5, 6, 7, 8]);
    let (ha, n) = fingerprint(&a, &regions);
    assert_eq!(n, 8);
    assert_eq!(fingerprint(&a, &regions), (ha, n));

    let b = BufferSource::new(0x1000, vec![1, 2, 3, 4, 5, 6, 7, 9]);
    assert_ne!(fingerprint(&b, &regions).0, ha);
}

#[test]
fn reads_pe_timestamp() {
    let mut data = vec![0u8; 0x200];
    data[0..2].copy_from_slice(b"MZ");
    data[0x3C..0x40].copy_from_slice(&0x80u32.to_le_bytes());
    data[0x80..0x84].copy_from_slice(b"PE\0\0");
    data[0x88..0x8C].copy_from_slice(&0x6655_4433u32.to_le_bytes());
    let source = BufferSource::new(0x1_0000, data);
    assert_eq!(pe_timestamp(&source, 0x1_0000), Some(0x6655_4433));
}

#[test]
fn reads_pe_machine() {
    let mut data = vec![0u8; 0x200];
    data[0..2].copy_from_slice(b"MZ");
    data[0x3C..0x40].copy_from_slice(&0x80u32.to_le_bytes());
    data[0x80..0x84].copy_from_slice(b"PE\0\0");
    data[0x84..0x86].copy_from_slice(&0x8664u16.to_le_bytes()); // IMAGE_FILE_MACHINE_AMD64
    let source = BufferSource::new(0x1_0000, data);
    assert_eq!(pe_machine(&source, 0x1_0000), Some(0x8664));
    // a buffer that is not a PE yields nothing rather than a bogus machine value
    let junk = BufferSource::new(0x2_0000, vec![0u8; 0x200]);
    assert_eq!(pe_machine(&junk, 0x2_0000), None);
}

#[test]
fn header_line_round_trips() {
    let stamp = BuildStamp {
        hash: 0xDEAD_BEEF_CAFE_F00D,
        bytes: 12345,
        timestamp: 0x6655_4433,
        version: Some("1.2.3.4".to_string()),
    };
    assert_eq!(parse_stamp(&stamp.header_line()), Some(stamp));
}

#[test]
fn missing_stamp_line_is_none() {
    assert_eq!(parse_stamp("module X base 0x1000\n[g] A = 0x1"), None);
}

#[test]
fn fingerprint_reads_regions_from_the_lowest_up() {
    let data = BufferSource::new(0x1000, (0..64).collect());
    let a = Region { base: 0x1000, size: 8 };
    let b = Region { base: 0x1010, size: 8 };
    assert_eq!(fingerprint(&data, &[a, b]), fingerprint(&data, &[b, a]));
    // the unreadable tail of a region does not count
    let tail = Region { base: 0x1038, size: 100 };
    assert_eq!(fingerprint(&data, &[tail]).1, 8);
    assert_eq!(fingerprint(&data, &[]), (0xcbf2_9ce4_8422_2325, 0));
    // the FNV-1a hash of one byte
    let one = BufferSource::new(0, vec![b'a']);
    assert_eq!(
        fingerprint(&one, &[Region { base: 0, size: 1 }]),
        (0xaf63_dc4c_8601_ec8c, 1)
    );
}

#[test]
fn capture_takes_hash_size_and_timestamp() {
    let mut data = vec![0u8; 0x200];
    data[0..2].copy_from_slice(b"MZ");
    data[0x3C..0x40].copy_from_slice(&0x80u32.to_le_bytes());
    data[0x80..0x84].copy_from_slice(b"PE\0\0");
    data[0x88..0x8C].copy_from_slice(&0x6655_4433u32.to_le_bytes());
    let source = BufferSource::new(0x1_0000, data);
    let regions = [Region { base: 0x1_0100, size: 0x40 }];
    let stamp = BuildStamp::capture(&source, 0x1_0000, &regions);
    assert_eq!(stamp.bytes, 0x40);
    assert_eq!(stamp.timestamp, 0x6655_4433);
    assert_eq!(stamp.version, None);
    assert_eq!(stamp.hash, fingerprint(&source, &regions).0);
    assert_eq!(stamp.short(), format!("{:016X}", stamp.hash));
    // no header: no timestamp
    let bare = BuildStamp::capture(&source, 0x1_0100, &regions);
    assert_eq!(bare.timestamp, 0);
}

#[test]
fn header_line_is_written_out() {
    let stamp = BuildStamp {
        hash: 0xAB,
        bytes: 7,
        timestamp: 0x1F,
        version: None,
    };
    assert_eq!(
        stamp.header_line(),
        "# build: hash=00000000000000AB bytes=7 timestamp=0000001F"
    );
    assert_eq!(parse_stamp(&stamp.header_line()), Some(stamp));
}

#[test]
fn stamps_are_found_among_other_lines() {
    let text = "first\r\n \t# build: bytes=+12 hash=zz version=a version=b\r\nlast";
    let stamp = parse_stamp(text).unwrap();
    assert_eq!(stamp.hash, 0, "a field that does not parse is zero");
    assert_eq!(stamp.bytes, 12);
    assert_eq!(stamp.version.as_deref(), Some("b"), "the last one counts");
    // white space ends a version
    let spaced = BuildStamp {
        hash: 1,
        bytes: 2,
        timestamp: 3,
        version: Some("a b".to_string()),
    };
    let back = parse_stamp(&spaced.header_line()).unwrap();
    assert_eq!(back.version.as_deref(), Some("a"));
    // overflow
    assert_eq!(
        parse_stamp("# build: timestamp=123456789 bytes=18446744073709551616"),
        Some(BuildStamp {
            hash: 0,
            bytes: 0,
            timestamp: 0,
            version: None
        })
    );
}

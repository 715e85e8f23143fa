use poker_core::png::{adler32, crc32, crc32_from, decode, encode};

/// What was written comes back, which is what makes replay meaningful.
#[test]
fn a_written_picture_reads_back_identically() {
    for (width, height) in [(3usize, 2usize), (200, 200)] {
        let rgb: Vec<u8> = (0..width * height * 3).map(|i| (i % 251) as u8).collect();
        let png = encode(width, height, &rgb);
        let (w, h, back) = decode(&png).expect("our own file");
        assert_eq!((w, h), (width, height));
        assert_eq!(back, rgb, "{width}x{height} did not survive the round trip");
    }
}

#[test]
fn anything_that_is_not_one_of_ours_is_refused() {
    assert_eq!(decode(b"not a png at all"), None);
    assert_eq!(decode(&[]), None);
    let mut truncated = encode(4, 4, &[9u8; 48]);
    truncated.truncate(20);
    assert_eq!(decode(&truncated), None);
}

/// The parts a decoder checks first: signature, dimensions, and that the
/// chunk lengths walk cleanly to the end.
#[test]
fn the_file_is_shaped_like_a_png() {
    let rgb = vec![7u8; 4 * 3 * 3];
    let png = encode(4, 3, &rgb);
    assert_eq!(&png[..8], &[0x89, b'P', b'N', b'G', 0x0D, 0x0A, 0x1A, 0x0A]);

    let mut at = 8;
    let mut kinds = Vec::new();
    while at + 8 <= png.len() {
        let len = u32::from_be_bytes(png[at..at + 4].try_into().expect("four")) as usize;
        let kind = String::from_utf8_lossy(&png[at + 4..at + 8]).to_string();
        // Every chunk carries a CRC the decoder will check.
        let body = &png[at + 8..at + 8 + len];
        let mut crc = crc32(&png[at + 4..at + 8]);
        crc = crc32_from(crc, body);
        let stored = u32::from_be_bytes(
            png[at + 8 + len..at + 12 + len].try_into().expect("four"),
        );
        assert_eq!(crc, stored, "{kind} has a bad checksum");
        kinds.push(kind);
        at += 12 + len;
    }
    assert_eq!(at, png.len(), "the chunks do not reach the end of the file");
    assert_eq!(kinds, vec!["IHDR", "IDAT", "IEND"]);

    let width = u32::from_be_bytes(png[16..20].try_into().expect("four"));
    let height = u32::from_be_bytes(png[20..24].try_into().expect("four"));
    assert_eq!((width, height), (4, 3));
}

/// The pixels survive, which is the entire point of not compressing them.
///
/// Found by reading the stored deflate blocks back out: with no filtering
/// and no compression, the image data is the scanlines verbatim, each
/// behind a single zero byte.
#[test]
fn the_pixels_come_back_unchanged() {
    let width = 3;
    let height = 2;
    let rgb: Vec<u8> = (0..width * height * 3).map(|i| (i * 7) as u8).collect();
    let png = encode(width, height, &rgb);

    // Walk to IDAT, then past the two-byte zlib header and the first
    // stored-block header of five bytes.
    let mut at = 8;
    loop {
        let len = u32::from_be_bytes(png[at..at + 4].try_into().expect("four")) as usize;
        if &png[at + 4..at + 8] == b"IDAT" {
            let body = &png[at + 8..at + 8 + len];
            let raw = &body[2 + 5..body.len() - 4];
            for row in 0..height {
                let line = &raw[row * (1 + width * 3)..(row + 1) * (1 + width * 3)];
                assert_eq!(line[0], 0, "row {row} should be unfiltered");
                assert_eq!(&line[1..], &rgb[row * width * 3..(row + 1) * width * 3]);
            }
            return;
        }
        at += 12 + len;
    }
}

/// A capture large enough to need more than one stored block still works.
#[test]
fn an_image_past_one_block_is_split_and_stays_valid() {
    let width = 200;
    let height = 200;
    let rgb: Vec<u8> = (0..width * height * 3).map(|i| (i % 251) as u8).collect();
    let png = encode(width, height, &rgb);
    // 200 rows of 601 bytes is 120200, comfortably past the 65535 a single
    // stored block can hold.
    assert!(rgb.len() > 65_535);
    assert!(png.len() > rgb.len());
    assert_eq!(&png[..4], &[0x89, b'P', b'N', b'G']);
}


/// Checksums that are published for these very texts.
#[test]
fn the_checksums_match_known_values() {
    assert_eq!(adler32(b"Wikipedia"), 0x11E6_0398);
    assert_eq!(crc32(b"123456789"), 0xCBF4_3926);
}

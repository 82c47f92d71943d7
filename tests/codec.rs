use refpack::command::Command;
use refpack::decode::decompress_actual;
use refpack::encode::compress_actual;
use refpack::header::{RefpackHeader, FLAG_HASCLEN, FLAG_LEN32};
use refpack::{compress, decompress, square, FormatError};

fn pseudo_random(n: usize, seed: u32) -> Vec<u8> {
    let mut x = seed;
    let mut v = Vec::with_capacity(n);
    for _ in 0..n {
        x = x.wrapping_mul(1664525).wrapping_add(1013904223);
        v.push((x >> 24) as u8);
    }
    v
}

fn round_trip(data: &[u8]) -> Vec<u8> {
    let block = compress_actual(data).expect("encodable");
    let back = decompress_actual(&block).expect("decodable");
    assert_eq!(back, data);
    block
}

#[test]
fn concrete_scenario() {
    let block = [0x10, 0xfb, 0x00, 0x00, 0x04, 0xe0, 0x01, 0x02, 0x03, 0x04, 0xfc];
    assert_eq!(decompress_actual(&block), Ok(vec![1, 2, 3, 4]));
}

#[test]
fn round_trip_empty() {
    let block = round_trip(&[]);
    // header with both lengths, then a bare Stop
    assert_eq!(block, vec![0x11, 0xfb, 0x00, 0x00, 0x09, 0x00, 0x00, 0x00, 0xfc]);
}

#[test]
fn round_trip_short_inputs() {
    for n in 0..40 {
        round_trip(&pseudo_random(n, n as u32));
        round_trip(&vec![7u8; n]);
    }
}

#[test]
fn round_trip_text() {
    let text = b"the quick brown fox jumps over the lazy dog; the quick brown fox jumps again and again and again";
    let block = round_trip(text);
    assert!(block.len() < text.len());
}

#[test]
fn round_trip_random() {
    round_trip(&pseudo_random(200_000, 42));
}

#[test]
fn round_trip_far_references() {
    // a random block repeated at distances that need each command shape
    let mut data = pseudo_random(70_000, 9);
    let copy = data[..20_000].to_vec();
    data.extend_from_slice(&copy);
    let copy = data[60_000..60_100].to_vec();
    data.extend_from_slice(&copy);
    round_trip(&data);
}

#[test]
fn round_trip_long_repeats() {
    let mut data = vec![0u8; 5000];
    data.extend(pseudo_random(3000, 3));
    data.extend(vec![0xabu8; 3000]);
    let block = round_trip(&data);
    assert!(block.len() < data.len() / 2);
}

#[test]
fn round_trip_four_byte_lengths() {
    let n = 16_777_216 + 1000;
    let pattern = pseudo_random(251, 5);
    let data: Vec<u8> = (0..n).map(|i| pattern[i % 251]).collect();
    let block = round_trip(&data);
    let (h, _) = RefpackHeader::from_bytes(&block).unwrap();
    assert_eq!(h.flags & FLAG_LEN32, FLAG_LEN32);
    assert_eq!(h.decompressed_len, n);
    assert_eq!(h.compressed_len, block.len());
}

#[test]
fn encoded_header_records_lengths() {
    let data = pseudo_random(1000, 1);
    let block = round_trip(&data);
    let (h, rest) = RefpackHeader::from_bytes(&block).unwrap();
    assert_eq!(h.flags, FLAG_HASCLEN);
    assert_eq!(h.decompressed_len, 1000);
    assert_eq!(h.compressed_len, block.len());
    assert_eq!(rest.len(), block.len() - 8);
    assert_eq!(*block.last().unwrap() & 0xfc, 0xfc);
}

#[test]
fn header_rejection() {
    assert_eq!(decompress_actual(&[]), Err(FormatError::BadMagic));
    assert_eq!(decompress_actual(&[0x10]), Err(FormatError::BadMagic));
    assert_eq!(decompress_actual(&[0x10, 0xfa, 0, 0, 0, 0xfc]), Err(FormatError::BadMagic));
    assert_eq!(decompress_actual(&[0x12, 0xfb, 0, 0, 0, 0xfc]), Err(FormatError::BadMagic));
    assert_eq!(decompress_actual(&[0x00, 0xfb, 0, 0, 0, 0xfc]), Err(FormatError::BadMagic));
    assert_eq!(decompress_actual(&[0x30, 0xfb, 0, 0, 0, 0xfc]), Err(FormatError::BadMagic));
    // flag bits 7, 6 and 0 are not part of the signature
    assert_eq!(decompress_actual(&[0x50, 0xfb, 0, 0, 0, 0xfc]), Ok(vec![]));
}

#[test]
fn truncated_header() {
    assert_eq!(decompress_actual(&[0x10, 0xfb, 0x00, 0x00]), Err(FormatError::Truncated));
    assert_eq!(decompress_actual(&[0x90, 0xfb, 0x00, 0x00, 0x00]), Err(FormatError::Truncated));
    assert_eq!(decompress_actual(&[0x11, 0xfb, 0, 0, 9, 0, 0]), Err(FormatError::Truncated));
}

#[test]
fn truncation_never_succeeds() {
    let mut data = pseudo_random(300, 11);
    let copy = data[..200].to_vec();
    data.extend_from_slice(&copy);
    let block = round_trip(&data);
    for k in 0..block.len() {
        let r = decompress_actual(&block[..k]);
        if k < 2 {
            assert_eq!(r, Err(FormatError::BadMagic));
        } else {
            assert!(r == Err(FormatError::Truncated) || r == Err(FormatError::MissingStop), "cut at {}", k);
        }
    }
}

#[test]
fn truncated_inside_command() {
    // a literal run of 8 with only 5 literal bytes present
    let block = [0x10, 0xfb, 0, 0, 8, 0xe1, 1, 2, 3, 4, 5];
    assert_eq!(decompress_actual(&block), Err(FormatError::Truncated));
    // a four-byte command cut after two bytes
    let block = [0x10, 0xfb, 0, 0, 8, 0xc0, 0x00];
    assert_eq!(decompress_actual(&block), Err(FormatError::Truncated));
}

#[test]
fn back_reference_bound() {
    // one literal, then a copy from 2 back
    let block = [0x10, 0xfb, 0, 0, 4, 0x01, 0x01, 0x41, 0xfc];
    assert_eq!(decompress_actual(&block), Err(FormatError::BadReference));
    // a copy from 1 back with nothing output
    let block = [0x10, 0xfb, 0, 0, 3, 0x00, 0x00, 0xfc];
    assert_eq!(decompress_actual(&block), Err(FormatError::BadReference));
}

#[test]
fn missing_terminator() {
    let block = [0x10, 0xfb, 0, 0, 4, 0xe0, 1, 2, 3, 4];
    assert_eq!(decompress_actual(&block), Err(FormatError::MissingStop));
    let block = [0x10, 0xfb, 0, 0, 0];
    assert_eq!(decompress_actual(&block), Err(FormatError::MissingStop));
}

#[test]
fn length_mismatch() {
    let block = [0x10, 0xfb, 0, 0, 5, 0xe0, 1, 2, 3, 4, 0xfc];
    assert_eq!(decompress_actual(&block), Err(FormatError::LengthMismatch));
}

#[test]
fn overlapping_copy() {
    // one literal 'A', then 10 bytes from 1 back
    let block = [0x10, 0xfb, 0, 0, 11, 0x1d, 0x00, b'A', 0xfc];
    assert_eq!(decompress_actual(&block), Ok(vec![b'A'; 11]));
    // "ab" then 7 bytes from 2 back
    let block = [0x10, 0xfb, 0, 0, 9, 0x12, 0x01, b'a', b'b', 0xfc];
    assert_eq!(decompress_actual(&block), Ok(b"ababababa".to_vec()));
}

#[test]
fn bytes_after_stop_are_ignored() {
    let block = [0x10, 0xfb, 0, 0, 2, 0xfe, 9, 8, 0xff, 0xff];
    assert_eq!(decompress_actual(&block), Ok(vec![9, 8]));
}

#[test]
fn medium_and_long_commands() {
    // 4 literals, then medium: 2 literals, copy 5 from 4 back
    let block = [0x10, 0xfb, 0, 0, 11, 0xe0, 1, 2, 3, 4, 0x81, 0x80, 0x03, 7, 8, 0xfc];
    assert_eq!(decompress_actual(&block), Ok(vec![1, 2, 3, 4, 7, 8, 3, 4, 7, 8, 3]));
    // 4 literals, then long: 0 literals, copy 6 from 4 back
    let block = [0x10, 0xfb, 0, 0, 10, 0xe0, 1, 2, 3, 4, 0xc0, 0x00, 0x03, 0x01, 0xfc];
    assert_eq!(decompress_actual(&block), Ok(vec![1, 2, 3, 4, 1, 2, 3, 4, 1, 2]));
}

#[test]
fn command_write_and_read() {
    let cases = [
        (Command::ShortCopy { literal_len: 3, ref_len: 10, ref_dist: 1024 }, vec![0x7f, 0xff]),
        (Command::ShortCopy { literal_len: 1, ref_len: 10, ref_dist: 1 }, vec![0x1d, 0x00]),
        (Command::MediumCopy { literal_len: 2, ref_len: 5, ref_dist: 4 }, vec![0x81, 0x80, 0x03]),
        (Command::MediumCopy { literal_len: 3, ref_len: 67, ref_dist: 16384 }, vec![0xbf, 0xff, 0xff]),
        (Command::LongCopy { literal_len: 0, ref_len: 6, ref_dist: 4 }, vec![0xc0, 0x00, 0x03, 0x01]),
        (Command::LongCopy { literal_len: 3, ref_len: 1028, ref_dist: 131072 }, vec![0xdf, 0xff, 0xff, 0xff]),
        (Command::LiteralRun { literal_len: 4 }, vec![0xe0]),
        (Command::LiteralRun { literal_len: 112 }, vec![0xfb]),
        (Command::Stop { literal_len: 0 }, vec![0xfc]),
        (Command::Stop { literal_len: 3 }, vec![0xff]),
    ];
    for (c, bytes) in cases.iter() {
        let mut v = Vec::new();
        c.write_to_vec(&mut v);
        assert_eq!(&v, bytes);
        assert_eq!(Command::read(&v, 0), Some(*c));
        assert_eq!(Command::read(&v[..v.len() - 1], 0), None);
    }
}

#[test]
fn header_write_and_read() {
    let h = RefpackHeader { flags: FLAG_HASCLEN, decompressed_len: 0x123456, compressed_len: 0xabcdef };
    let mut v = Vec::new();
    h.write_to_vec(&mut v);
    assert_eq!(v, vec![0x11, 0xfb, 0xab, 0xcd, 0xef, 0x12, 0x34, 0x56]);
    v.push(0xfc);
    let (back, rest) = RefpackHeader::from_bytes(&v).unwrap();
    assert_eq!(back, h);
    assert_eq!(rest, &[0xfc]);

    let h = RefpackHeader { flags: FLAG_LEN32 | 2, decompressed_len: 0x0102_0304, compressed_len: 0 };
    let mut v = Vec::new();
    h.write_to_vec(&mut v);
    assert_eq!(v, vec![0xd0, 0xfb, 0x01, 0x02, 0x03, 0x04]);
    let (back, rest) = RefpackHeader::from_bytes(&v).unwrap();
    assert_eq!(back, h);
    assert!(rest.is_empty());
}

#[test]
fn out_vec_hand_off() {
    let ok = decompress(&[0x10, 0xfb, 0, 0, 1, 0xfd, 0x61]);
    assert!(!ok.is_null());
    assert_eq!(ok.len(), 1);
    assert_eq!(ok.into_vec(), Some(vec![0x61]));
    let bad = decompress(&[0x10, 0xfa]);
    assert!(bad.is_null());
    assert_eq!(bad.len(), 0);
    assert_eq!(bad.into_vec(), None);
    let enc = compress(b"hello hello hello").into_vec().unwrap();
    assert_eq!(decompress(&enc).into_vec(), Some(b"hello hello hello".to_vec()));
}

#[test]
fn square_values() {
    assert_eq!(square(0), 0);
    assert_eq!(square(3), 9);
    assert_eq!(square(u32::MAX), 18446744065119617025);
}

use grenad::compression::{compress, decompress};
use grenad::endian::u64_to_be;
use grenad::order::{compare_keys, same_bytes, KeyOrder};
use grenad::varint::{varint_decode32, varint_encode32};
use grenad::{CompressionType, Error, IoError};

#[test]
fn varints_of_chosen_numbers() {
    for (n, expected) in [
        (0u32, vec![0u8]),
        (127, vec![127]),
        (128, vec![0x80, 1]),
        (300, vec![0xac, 2]),
        (16384, vec![0x80, 0x80, 1]),
        (u32::MAX, vec![0xff, 0xff, 0xff, 0xff, 0x0f]),
    ] {
        let mut bytes = vec![42];
        varint_encode32(&mut bytes, n);
        assert_eq!(bytes[0], 42);
        assert_eq!(bytes[1..], expected);
    }
}

#[test]
fn varints_are_decoded_whatever_follows() {
    for n in [0u32, 1, 127, 128, 300, 65535, 1 << 21, 1 << 28, u32::MAX] {
        let mut bytes = Vec::new();
        varint_encode32(&mut bytes, n);
        let len = bytes.len();
        bytes.extend_from_slice(&[0xff, 7]);
        assert_eq!(varint_decode32(&bytes), Some((n, len)));
    }
}

#[test]
fn bytes_that_are_no_varint() {
    assert_eq!(varint_decode32(&[]), None);
    assert_eq!(varint_decode32(&[0x80]), None);
    assert_eq!(varint_decode32(&[0x80, 0x80, 0x80, 0x80, 0x80, 0]), None);
    assert_eq!(varint_decode32(&[0xff, 0xff, 0xff, 0xff, 0x10]), None);
}

#[test]
fn big_endian_bytes() {
    assert_eq!(u64_to_be(0x0102_0304_0506_0708), [1, 2, 3, 4, 5, 6, 7, 8]);
    assert_eq!(u64_to_be(0), [0; 8]);
    assert_eq!(u64_to_be(u64::MAX), [255; 8]);
}

#[test]
fn compressions_and_their_bytes() {
    for compression in [CompressionType::Uncompressed, CompressionType::Snappy] {
        assert_eq!(CompressionType::from_u8(compression.to_u8()), Some(compression));
    }
    assert_eq!(CompressionType::Uncompressed.to_u8(), 0);
    assert_eq!(CompressionType::Snappy.to_u8(), 1);
    assert_eq!(CompressionType::from_u8(2), None);
    assert_eq!(CompressionType::from_u8(255), None);
}

#[test]
fn decompressing_undoes_compressing() {
    let data: Vec<u8> = (0..3000u32).map(|n| (n / 100) as u8).collect();
    let stored = compress(CompressionType::Snappy, 0, &data).unwrap();
    assert_ne!(stored, data);
    assert!(stored.len() < data.len());
    assert_eq!(decompress(CompressionType::Snappy, stored), Ok(data.clone()));
    let stored = compress(CompressionType::Uncompressed, 9, &data).unwrap();
    assert_eq!(stored, data);
    assert_eq!(decompress(CompressionType::Uncompressed, stored), Ok(data));
}

#[test]
fn snappy_bytes_of_a_short_input() {
    // The length, then a literal of three bytes.
    let stored = compress(CompressionType::Snappy, 0, b"abc").unwrap();
    assert_eq!(stored, [3, 8, b'a', b'b', b'c']);
    assert_eq!(decompress(CompressionType::Snappy, vec![0]), Ok(vec![]));
}

#[test]
fn what_does_not_decompress_comes_back() {
    assert_eq!(decompress(CompressionType::Snappy, vec![9, 1, 2]), Err(vec![9, 1, 2]));
}

#[test]
fn keys_are_ordered_byte_by_byte() {
    assert_eq!(compare_keys(b"", b""), KeyOrder::Equal);
    assert_eq!(compare_keys(b"", b"a"), KeyOrder::Less);
    assert_eq!(compare_keys(b"ab", b"a"), KeyOrder::Greater);
    assert_eq!(compare_keys(b"ab", b"b"), KeyOrder::Less);
    assert_eq!(compare_keys(&[255], &[0, 0]), KeyOrder::Greater);
    assert!(same_bytes(b"abc", b"abc"));
    assert!(!same_bytes(b"abc", b"abd"));
}

#[test]
fn errors_are_converted() {
    let e: Error<u8> = Error::InvalidCompressionType.convert_merge_error();
    assert!(matches!(e, Error::InvalidCompressionType));
    let e: Error<u8> = Error::InvalidBlock.convert_merge_error();
    assert!(matches!(e, Error::InvalidBlock));
    let e: Error<u8> = Error::Io(IoError::UnexpectedEof).convert_merge_error();
    assert!(matches!(e, Error::Io(IoError::UnexpectedEof)));
}

#[test]
fn failures_become_errors() {
    let e: Error<u8> = Error::from(IoError::InvalidData);
    assert!(matches!(e, Error::Io(IoError::InvalidData)));
    let e: Error<u8> = std::io::Error::from(std::io::ErrorKind::NotFound).into();
    assert!(matches!(e, Error::Io(IoError::Other(e)) if e.kind() == std::io::ErrorKind::NotFound));
}

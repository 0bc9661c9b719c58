use grenad::io::{Read, Write};
use grenad::{CompressionType, Error, IoError, Reader, Writer, WriterBuilder};

#[test]
fn no_compression() {
    let wb = Writer::builder();
    let mut writer = wb.build(Vec::new()).unwrap();

    for x in 0..2000u32 {
        let x = x.to_be_bytes();
        writer.insert(&x, &x).unwrap();
    }

    let bytes = writer.into_inner().unwrap();
    assert_ne!(bytes.len(), 0);

    let mut reader = Reader::new(bytes.as_slice()).unwrap();
    let mut x: u32 = 0;

    while let Some((k, v)) = reader.next().unwrap() {
        assert_eq!(k, x.to_be_bytes());
        assert_eq!(v, x.to_be_bytes());
        x += 1;
    }

    assert_eq!(x, 2000);
}

#[test]
fn empty() {
    let mut reader = Reader::new(&[][..]).unwrap();
    assert_eq!(reader.next().unwrap(), None);
}

#[test]
fn snappy_compression() {
    let mut wb = Writer::builder();
    wb.compression_type(CompressionType::Snappy);
    let mut writer = wb.build(Vec::new()).unwrap();

    for x in 0..2000u32 {
        let x = x.to_be_bytes();
        writer.insert(&x, &x).unwrap();
    }

    let bytes = writer.into_inner().unwrap();
    assert_ne!(bytes.len(), 0);

    let mut reader = Reader::new(bytes.as_slice()).unwrap();
    let mut x: u32 = 0;

    while let Some((k, v)) = reader.next().unwrap() {
        assert_eq!(k, x.to_be_bytes());
        assert_eq!(v, x.to_be_bytes());
        x += 1;
    }

    assert_eq!(x, 2000);
}

/// A file without compression that holds the given blocks.
fn file_of(blocks: &[&[u8]]) -> Vec<u8> {
    let mut bytes = vec![0];
    for block in blocks {
        bytes.extend_from_slice(&(block.len() as u64).to_be_bytes());
        bytes.extend_from_slice(block);
    }
    bytes
}

#[test]
fn bytes_of_a_file() {
    let mut writer = WriterBuilder::new().memory();
    writer.insert(b"a", b"bc").unwrap();
    writer.insert(b"d", b"").unwrap();
    let bytes = writer.into_inner().unwrap();
    assert_eq!(bytes, [0, 0, 0, 0, 0, 0, 0, 0, 8, 1, 2, b'a', b'b', b'c', 1, 0, b'd']);
}

#[test]
fn a_writer_writes_after_what_is_there() {
    let mut writer = WriterBuilder::new().build(vec![7, 7]).unwrap();
    writer.insert(b"a", b"").unwrap();
    let bytes = writer.into_inner().unwrap();
    assert_eq!(bytes, [7, 7, 0, 0, 0, 0, 0, 0, 0, 0, 3, 1, 0, b'a']);
}

#[test]
fn nothing_inserted_is_the_byte_of_the_compression() {
    assert_eq!(WriterBuilder::new().memory().into_inner().unwrap(), [0]);
    let mut wb = WriterBuilder::new();
    wb.compression_type(CompressionType::Snappy);
    let bytes = wb.memory().into_inner().unwrap();
    assert_eq!(bytes, [1]);
    let mut reader = Reader::new(bytes.as_slice()).unwrap();
    assert_eq!(reader.compression_type(), CompressionType::Snappy);
    assert_eq!(reader.next().unwrap(), None);
}

#[test]
fn blocks_are_closed_at_their_size() {
    let mut wb = WriterBuilder::new();
    wb.block_size(1);
    let mut writer = wb.memory();
    let val = [9u8; 509];
    // An entry of 1 + 2 + 1 + 509 bytes: two of them reach the least size, 1024.
    for key in [b"a", b"b", b"c"] {
        writer.insert(key, &val).unwrap();
    }
    let bytes = writer.into_inner().unwrap();
    assert_eq!(bytes.len(), 1 + (8 + 2 * 513) + (8 + 513));
    assert_eq!(bytes[1..9], 1026u64.to_be_bytes());
    assert_eq!(bytes[1035..1043], 513u64.to_be_bytes());

    let mut reader = Reader::new(bytes.as_slice()).unwrap();
    for key in [b"a", b"b", b"c"] {
        assert_eq!(reader.next().unwrap(), Some((&key[..], &val[..])));
    }
    assert_eq!(reader.next().unwrap(), None);
}

#[test]
fn compressed_blocks_are_shorter() {
    let val = [3u8; 5000];
    let mut wb = WriterBuilder::new();
    wb.compression_type(CompressionType::Snappy).compression_level(4);
    let mut writer = wb.memory();
    writer.insert(b"key", &val).unwrap();
    let bytes = writer.into_inner().unwrap();
    assert!(bytes.len() < 1000);
    let mut reader = Reader::new(bytes.as_slice()).unwrap();
    assert_eq!(reader.next().unwrap(), Some((&b"key"[..], &val[..])));
    assert_eq!(reader.next().unwrap(), None);
}

#[test]
fn the_end_is_final() {
    let bytes = file_of(&[&[1, 0, b'a']]);
    let mut reader = Reader::new(bytes.as_slice()).unwrap();
    assert_eq!(reader.next().unwrap(), Some((&b"a"[..], &b""[..])));
    for _ in 0..3 {
        assert_eq!(reader.next().unwrap(), None);
    }
}

#[test]
fn a_clone_reads_on_by_itself() {
    let bytes = file_of(&[&[1, 0, b'a', 1, 0, b'b']]);
    let mut reader = Reader::new(bytes.as_slice()).unwrap();
    reader.next().unwrap();
    let mut clone = reader.clone();
    assert_eq!(reader.next().unwrap(), Some((&b"b"[..], &b""[..])));
    assert_eq!(clone.next().unwrap(), Some((&b"b"[..], &b""[..])));
    assert_eq!(clone.next().unwrap(), None);
}

#[test]
fn an_empty_block_yields_none_once() {
    let bytes = file_of(&[&[1, 0, b'a'], &[], &[1, 0, b'b']]);
    let mut reader = Reader::new(bytes.as_slice()).unwrap();
    assert_eq!(reader.next().unwrap(), Some((&b"a"[..], &b""[..])));
    assert_eq!(reader.next().unwrap(), None);
    assert_eq!(reader.next().unwrap(), Some((&b"b"[..], &b""[..])));
    assert_eq!(reader.next().unwrap(), None);
}

#[test]
fn a_length_cut_short_is_the_end() {
    let bytes = [0, 0, 0, 0];
    let mut reader = Reader::new(&bytes[..]).unwrap();
    assert_eq!(reader.next().unwrap(), None);
}

#[test]
fn unknown_compression() {
    assert!(matches!(Reader::new(&[2u8][..]), Err(Error::InvalidCompressionType)));
}

#[test]
fn truncated_blocks() {
    let bytes = file_of(&[&[1, 0, b'a'], &[1, 0, b'b']]);
    let first = &bytes[..11];
    assert!(matches!(Reader::new(first), Err(Error::Io(IoError::UnexpectedEof))));
    let second = &bytes[..bytes.len() - 1];
    let mut reader = Reader::new(second).unwrap();
    assert_eq!(reader.next().unwrap(), Some((&b"a"[..], &b""[..])));
    assert!(matches!(reader.next(), Err(Error::Io(IoError::UnexpectedEof))));
}

#[test]
fn a_truncated_block_leaves_the_one_before_with_its_length() {
    let mut bytes = file_of(&[&[1, 1, b'a', b'1', 1, 1, b'b', b'2']]);
    bytes.extend_from_slice(&[0, 0, 0, 0, 0, 0, 0, 10, 7]);
    let mut reader = Reader::new(bytes.as_slice()).unwrap();
    reader.next().unwrap();
    reader.next().unwrap();
    assert!(matches!(reader.next(), Err(Error::Io(IoError::UnexpectedEof))));
    assert_eq!(reader.next().unwrap(), Some((&b"a"[..], &b"1"[..])));
    assert_eq!(reader.next().unwrap(), Some((&b"b"[..], &b"2"[..])));
    assert_eq!(reader.next().unwrap(), Some((&b""[..], &b""[..])));
    assert_eq!(reader.next().unwrap(), None);

    let mut bytes = file_of(&[&[1, 1, b'a', b'1', 1, 1, b'b', b'2']]);
    bytes.extend_from_slice(&[0, 0, 0, 0, 0, 0, 0, 4, 7]);
    let mut reader = Reader::new(bytes.as_slice()).unwrap();
    reader.next().unwrap();
    reader.next().unwrap();
    assert!(matches!(reader.next(), Err(Error::Io(IoError::UnexpectedEof))));
    assert_eq!(reader.next().unwrap(), Some((&b"a"[..], &b"1"[..])));
    assert_eq!(reader.next().unwrap(), None);
}

#[test]
fn corrupt_blocks() {
    let mut bytes = file_of(&[&[0xff, 0xff, 0xff]]);
    bytes[0] = 1;
    assert!(matches!(Reader::new(bytes.as_slice()), Err(Error::Io(IoError::InvalidData))));
}

#[test]
fn blocks_that_spell_no_entry() {
    for block in [&[5, 5, b'a'][..], &[0x80], &[1, 0x80, 0x80, 0x80, 0x80, 0x10, b'a']] {
        let bytes = file_of(&[block]);
        let mut reader = Reader::new(bytes.as_slice()).unwrap();
        assert!(matches!(reader.checked_next(), Err(Error::InvalidBlock)));
    }
    let bytes = file_of(&[&[1, 1, b'a', b'b']]);
    let mut reader = Reader::new(bytes.as_slice()).unwrap();
    assert_eq!(reader.checked_next().unwrap(), Some((&b"a"[..], &b"b"[..])));
    assert_eq!(reader.checked_next().unwrap(), None);
}

#[test]
fn the_source_comes_back_where_reading_has_come_to() {
    let mut bytes = file_of(&[&[1, 0, b'a'], &[1, 0, b'b']]);
    bytes.push(4);
    let mut reader = Reader::new(bytes.as_slice()).unwrap();
    reader.next().unwrap();
    reader.next().unwrap();
    assert_eq!(reader.into_inner(), [4]);
}

/// A source that fails.
struct Broken;

impl Read for Broken {
    fn read_exact(&mut self, _n: usize) -> Result<Vec<u8>, IoError> {
        Err(IoError::Other(std::io::Error::new(std::io::ErrorKind::Other, "broken")))
    }
}

#[test]
fn a_source_that_fails() {
    match Reader::new(Broken) {
        Err(Error::Io(IoError::Other(e))) => assert_eq!(e.to_string(), "broken"),
        _ => panic!("the failure of the source was lost"),
    }
}

/// A destination that takes so many bytes and then fails.
struct Full(usize);

impl Write for Full {
    fn write_all(&mut self, bytes: &[u8]) -> Result<(), IoError> {
        if bytes.len() <= self.0 {
            self.0 -= bytes.len();
            Ok(())
        } else {
            Err(IoError::Other(std::io::Error::new(std::io::ErrorKind::Other, "full")))
        }
    }
}

#[test]
fn a_destination_that_fails() {
    assert!(matches!(WriterBuilder::new().build(Full(0)), Err(Error::Io(IoError::Other(_)))));
    let mut writer = WriterBuilder::new().build(Full(1)).unwrap();
    writer.insert(b"a", b"b").unwrap();
    assert!(matches!(writer.into_inner(), Err(Error::Io(IoError::Other(_)))));
    let mut writer = WriterBuilder::new().build(Full(9)).unwrap();
    assert!(matches!(writer.insert(b"a", &[0; 9000]), Err(Error::Io(IoError::Other(_)))));
    let mut writer = WriterBuilder::new().build(Full(13)).unwrap();
    writer.insert(b"a", b"b").unwrap();
    assert!(writer.into_inner().is_ok());
}

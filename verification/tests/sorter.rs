use grenad::io::{Chunk, Cursor, Read, Write};
use grenad::{
    CompressionType, CursorVec, Error, IoError, MergerIter, Reader, Sorter, SorterBuilder,
    WriterBuilder,
};
use std::borrow::Cow;
use std::cell::{Cell, RefCell};
use std::convert::Infallible;
use std::rc::Rc;

fn merge<'a>(_key: &[u8], vals: &[Cow<'a, [u8]>]) -> Result<Cow<'a, [u8]>, Infallible> {
    Ok(vals.iter().map(AsRef::as_ref).flatten().cloned().collect())
}

fn refuse<'a>(key: &[u8], _vals: &[Cow<'a, [u8]>]) -> Result<Cow<'a, [u8]>, Vec<u8>> {
    Err(key.to_vec())
}

/// As many values as there are, in one byte.
fn count<'a>(_key: &[u8], vals: &[Cow<'a, [u8]>]) -> Result<Cow<'a, [u8]>, Infallible> {
    Ok(Cow::Owned(vec![vals.len() as u8]))
}

#[test]
fn simple_cursorvec() {
    let mut sorter = SorterBuilder::new(merge)
        .chunk_compression_type(CompressionType::Snappy)
        .chunk_creation(CursorVec)
        .build();

    sorter.insert(b"hello", b"kiki").unwrap();
    sorter.insert(b"abstract", b"lol").unwrap();
    sorter.insert(b"allo", b"lol").unwrap();
    sorter.insert(b"abstract", b"lol").unwrap();

    let mut bytes = WriterBuilder::new().memory();
    sorter.write_into(&mut bytes).unwrap();
    let bytes = bytes.into_inner().unwrap();

    let mut reader = Reader::new(bytes.as_slice()).unwrap();
    while let Some((key, val)) = reader.next().unwrap() {
        match key {
            b"hello" => assert_eq!(val, b"kiki"),
            b"abstract" => assert_eq!(val, b"lollol"),
            b"allo" => assert_eq!(val, b"lol"),
            _ => panic!(),
        }
    }
}

fn entries_of<F>(mut iter: MergerIter<Cursor, F>) -> Vec<(Vec<u8>, Vec<u8>)>
where
    F: for<'a> Fn(&[u8], &[Cow<'a, [u8]>]) -> Result<Cow<'a, [u8]>, Infallible>,
{
    let mut out = Vec::new();
    while let Some((k, v)) = iter.next().unwrap() {
        out.push((k.to_vec(), v.to_vec()));
    }
    out
}

#[test]
fn entries_come_out_sorted_and_merged() {
    let mut sorter = Sorter::<_, CursorVec>::new(merge);
    for (k, v) in [("b", "1"), ("a", "2"), ("c", "3"), ("b", "4"), ("a", "5"), ("b", "6")] {
        sorter.insert(k.as_bytes(), v.as_bytes()).unwrap();
    }
    assert_eq!(
        entries_of(sorter.into_iter().unwrap()),
        [
            (b"a".to_vec(), b"25".to_vec()),
            (b"b".to_vec(), b"146".to_vec()),
            (b"c".to_vec(), b"3".to_vec()),
        ]
    );
}

#[test]
fn nothing_inserted_is_nothing_sorted() {
    let sorter = Sorter::<_, CursorVec>::builder(merge).build();
    assert_eq!(entries_of(sorter.into_iter().unwrap()), []);
}

#[test]
fn values_are_merged_in_the_buffer_and_again_from_the_chunk() {
    let mut sorter = SorterBuilder::new(count).build();
    for _ in 0..3 {
        sorter.insert(b"k", b"v").unwrap();
    }
    assert_eq!(entries_of(sorter.into_iter().unwrap()), [(b"k".to_vec(), vec![1])]);
}

#[test]
fn the_buffer_grows() {
    let made = Cell::new(0);
    let mut sorter = SorterBuilder::new(merge)
        .chunk_creation(|| {
            made.set(made.get() + 1);
            Ok::<_, IoError>(Cursor::new())
        })
        .build();
    let val = [1u8; 100_000];
    for key in [3u8, 1, 2] {
        sorter.insert(&[key], &val).unwrap();
    }
    assert_eq!(made.get(), 0);
    let out = entries_of(sorter.into_iter().unwrap());
    assert_eq!(made.get(), 1);
    assert_eq!(out.len(), 3);
    for (i, (k, v)) in out.iter().enumerate() {
        assert_eq!(k[..], [i as u8 + 1]);
        assert_eq!(v[..], val[..]);
    }
}

/// A sorter whose buffer has 10 MiB and may not grow, given values of 6 MB.
fn dump(max_nb_chunks: usize) -> (usize, Vec<(Vec<u8>, Vec<u8>)>) {
    let made = Cell::new(0);
    let mut builder = SorterBuilder::new(merge);
    builder.dump_threshold(1).allow_realloc(false).max_nb_chunks(max_nb_chunks);
    builder.chunk_compression_type(CompressionType::Snappy).chunk_compression_level(3);
    let mut sorter = builder
        .chunk_creation(|| {
            made.set(made.get() + 1);
            Ok::<_, IoError>(Cursor::new())
        })
        .build();
    for n in 0..5u8 {
        sorter.insert(b"k", &[n]).unwrap();
        sorter.insert(&[b'a' + n], &vec![n; 6_000_000]).unwrap();
    }
    let out = entries_of(sorter.into_iter().unwrap());
    (made.get(), out)
}

fn check_dumped(out: &[(Vec<u8>, Vec<u8>)]) {
    let keys: Vec<&[u8]> = out.iter().map(|(k, _)| k.as_slice()).collect();
    assert_eq!(keys, [b"a", b"b", b"c", b"d", b"e", b"k"]);
    for n in 0..5u8 {
        assert_eq!(out[n as usize].1, vec![n; 6_000_000]);
    }
    assert_eq!(out[5].1, [0, 1, 2, 3, 4]);
}

#[test]
fn a_full_buffer_is_dumped_into_chunks() {
    // The second to the fifth of the long values each find the buffer full, and
    // what is left at the end makes one more chunk.
    let (made, out) = dump(25);
    assert_eq!(made, 5);
    check_dumped(&out);
}

#[test]
fn too_many_chunks_are_merged() {
    // With every dump but the first, two chunks are merged into a new one.
    let (made, out) = dump(2);
    assert_eq!(made, 5 + 3);
    check_dumped(&out);
}

#[test]
fn one_chunk_at_most() {
    // The number is at least one: every dump is followed by a merge.
    let (made, out) = dump(0);
    assert_eq!(made, 5 + 4);
    check_dumped(&out);
}

#[test]
fn an_entry_larger_than_the_buffer_makes_it_grow() {
    let mut builder = SorterBuilder::new(merge);
    builder.dump_threshold(0).allow_realloc(false);
    let mut sorter = builder.build();
    let val = vec![8; 11_000_000];
    sorter.insert(b"k", &val).unwrap();
    assert_eq!(entries_of(sorter.into_iter().unwrap()), [(b"k".to_vec(), val)]);
}

#[test]
fn the_empty_key_is_sorted_only_alone() {
    let mut sorter = SorterBuilder::new(merge).build();
    sorter.insert(b"", b"lost").unwrap();
    sorter.insert(b"a", b"kept").unwrap();
    assert_eq!(entries_of(sorter.into_iter().unwrap()), [(b"a".to_vec(), b"kept".to_vec())]);

    let mut sorter = SorterBuilder::new(merge).build();
    sorter.insert(b"", b"1").unwrap();
    sorter.insert(b"", b"2").unwrap();
    assert_eq!(entries_of(sorter.into_iter().unwrap()), [(b"".to_vec(), b"12".to_vec())]);
}

#[test]
fn a_sort_whose_merge_function_fails() {
    let mut sorter = SorterBuilder::new(refuse).build();
    sorter.insert(b"b", b"1").unwrap();
    sorter.insert(b"a", b"2").unwrap();
    let mut writer = WriterBuilder::new().memory();
    assert!(matches!(sorter.write_into(&mut writer), Err(Error::Merge(key)) if key == b"a"));
    assert_eq!(writer.into_inner().unwrap(), [0]);
}

#[test]
fn chunks_that_cannot_be_made() {
    let fail = || -> Result<Cursor, std::io::Error> {
        Err(std::io::Error::new(std::io::ErrorKind::Other, "no space"))
    };
    let mut builder = SorterBuilder::new(merge);
    builder.dump_threshold(0).allow_realloc(false);
    let mut sorter = builder.chunk_creation(fail).build();
    let val = vec![8; 6_000_000];
    sorter.insert(b"a", &val).unwrap();
    assert!(matches!(sorter.insert(b"b", &val), Err(Error::Io(IoError::Other(_)))));
    assert!(matches!(sorter.into_iter(), Err(Error::Io(IoError::Other(_)))));
}

#[test]
fn the_error_of_making_a_chunk_comes_back() {
    for fails in 1..4 {
        let made = Cell::new(0);
        let mut builder = SorterBuilder::new(merge);
        builder.dump_threshold(0).allow_realloc(false).max_nb_chunks(1);
        let mut sorter = builder
            .chunk_creation(|| -> Result<Cursor, Error> {
                made.set(made.get() + 1);
                match made.get() {
                    n if n != fails => Ok(Cursor::new()),
                    1 => Err(Error::InvalidBlock),
                    2 => Err(Error::Io(IoError::InvalidData)),
                    _ => Err(Error::InvalidCompressionType),
                }
            })
            .build();
        let val = vec![1; 6_000_000];
        sorter.insert(b"b", &val).unwrap();
        let inserted = sorter.insert(b"a", &val);
        match fails {
            // The buffer is not dumped, and the entry is not inserted.
            1 => {
                assert!(matches!(inserted, Err(Error::InvalidBlock)));
                assert_eq!(keys_of(sorter.into_iter().unwrap()), [b"b"]);
            }
            // It is dumped, and the chunk is kept.
            2 => {
                assert!(matches!(inserted, Err(Error::Io(IoError::InvalidData))));
                assert_eq!(keys_of(sorter.into_iter().unwrap()), [b"a", b"b"]);
            }
            _ => {
                inserted.unwrap();
                assert!(matches!(sorter.into_iter(), Err(Error::InvalidCompressionType)));
            }
        }
    }
}

/// A chunk that fails when it is written for the second time.
struct Worn(usize);

impl Read for Worn {
    fn read_exact(&mut self, _n: usize) -> Result<Vec<u8>, IoError> {
        Err(IoError::UnexpectedEof)
    }
}

impl Write for Worn {
    fn write_all(&mut self, _bytes: &[u8]) -> Result<(), IoError> {
        self.0 += 1;
        if self.0 == 1 {
            Ok(())
        } else {
            Err(IoError::Other(std::io::Error::new(std::io::ErrorKind::Other, "worn")))
        }
    }
}

impl Chunk for Worn {
    fn rewind(&mut self) -> Result<(), IoError> {
        Ok(())
    }
}

#[test]
fn the_error_of_a_chunk_comes_back() {
    let mut sorter = SorterBuilder::new(merge)
        .chunk_creation(|| -> Result<Worn, Error> { Ok(Worn(0)) })
        .build();
    sorter.insert(b"a", b"1").unwrap();
    match sorter.into_iter() {
        Err(Error::Io(IoError::Other(e))) => assert_eq!(e.to_string(), "worn"),
        _ => panic!("the failure of the chunk was lost"),
    }
}

/// The entries that a sorter makes of others, dumping them on the way or not.
fn sorted_with<F>(merge: F, entries: &[(&str, u8)], dump: bool) -> Vec<(Vec<u8>, Vec<u8>)>
where
    F: for<'a> Fn(&[u8], &[Cow<'a, [u8]>]) -> Result<Cow<'a, [u8]>, Infallible>,
{
    let mut builder = SorterBuilder::new(merge);
    builder.dump_threshold(0).allow_realloc(false);
    let mut sorter = builder.build();
    for (i, (key, val)) in entries.iter().enumerate() {
        if dump && i % 2 == 1 {
            // Six million bytes fit once.
            sorter.insert(b"~", &vec![0; 6_000_000]).unwrap();
        }
        sorter.insert(key.as_bytes(), &[*val]).unwrap();
    }
    entries_of(sorter.into_iter().unwrap()).into_iter().filter(|(k, _)| k != b"~").collect()
}

/// The greatest of the values.
fn greatest<'a>(_key: &[u8], vals: &[Cow<'a, [u8]>]) -> Result<Cow<'a, [u8]>, Infallible> {
    Ok(vals.iter().max().unwrap().clone())
}

#[test]
fn the_order_of_insertion_does_not_matter_to_such_a_merge_function() {
    let forward = [("b", 3), ("a", 1), ("b", 9), ("c", 4), ("a", 2), ("b", 5)];
    let mut backward = forward;
    backward.reverse();
    let expected = [("a", 2u8), ("b", 9), ("c", 4)]
        .iter()
        .map(|(k, v)| (k.as_bytes().to_vec(), vec![*v]))
        .collect::<Vec<_>>();
    for dump in [false, true] {
        assert_eq!(sorted_with(greatest, &forward, dump), expected);
        assert_eq!(sorted_with(greatest, &backward, dump), expected);
    }
}

#[test]
fn sorted_entries_follow_those_in_the_writer() {
    let mut sorter = SorterBuilder::new(merge).build();
    sorter.insert(b"b", b"2").unwrap();
    sorter.insert(b"a", b"1").unwrap();
    let mut writer = WriterBuilder::new().memory();
    writer.insert(b"z", b"0").unwrap();
    sorter.write_into(&mut writer).unwrap();
    let bytes = writer.into_inner().unwrap();
    assert_eq!(
        bytes,
        [
            0, 0, 0, 0, 0, 0, 0, 0, 12, 1, 1, b'z', b'0', 1, 1, b'a', b'1', 1, 1, b'b', b'2'
        ]
    );
}

/// The values one after the other, and a mark for every call.
fn mark<'a>(_key: &[u8], vals: &[Cow<'a, [u8]>]) -> Result<Cow<'a, [u8]>, Infallible> {
    let mut out: Vec<u8> = vals.iter().map(AsRef::as_ref).flatten().cloned().collect();
    out.push(b'!');
    Ok(Cow::Owned(out))
}

#[test]
fn values_are_merged_once_in_a_dump_and_once_at_the_end() {
    let mut sorter = SorterBuilder::new(mark).chunk_creation(CursorVec).build();
    sorter.insert(b"a", b"x").unwrap();
    let mut writer = WriterBuilder::new().memory();
    sorter.write_into(&mut writer).unwrap();
    let bytes = writer.into_inner().unwrap();
    let mut reader = Reader::new(bytes.as_slice()).unwrap();
    assert_eq!(reader.next().unwrap(), Some((&b"a"[..], &b"x!!"[..])));
    assert_eq!(reader.next().unwrap(), None);
}

#[test]
fn values_of_dumped_chunks_are_merged_with_those_in_memory() {
    let mut builder = SorterBuilder::new(mark);
    builder.dump_threshold(0).allow_realloc(false);
    let mut sorter = builder.build();
    sorter.insert(b"a", b"x").unwrap();
    sorter.insert(b"f", &vec![0; 6_000_000]).unwrap();
    // This one dumps the others.
    sorter.insert(b"g", &vec![0; 6_000_000]).unwrap();
    sorter.insert(b"a", b"y").unwrap();
    let mut iter = sorter.into_iter().unwrap();
    assert_eq!(iter.next().unwrap(), Some((&b"a"[..], &b"x!y!!"[..])));
}

/// A merge function that concatenates, and fails on the call that a countdown says.
fn counting<'c>(
    calls: &'c Cell<usize>,
) -> impl for<'a> Fn(&[u8], &[Cow<'a, [u8]>]) -> Result<Cow<'a, [u8]>, usize> + 'c {
    fn fix<F>(f: F) -> F
    where
        F: for<'a> Fn(&[u8], &[Cow<'a, [u8]>]) -> Result<Cow<'a, [u8]>, usize>,
    {
        f
    }
    fix(move |_key, vals| {
        if calls.get() == 1 {
            calls.set(0);
            return Err(vals.len());
        }
        if calls.get() > 1 {
            calls.set(calls.get() - 1);
        }
        Ok(vals.iter().map(AsRef::as_ref).flatten().cloned().collect())
    })
}

fn keys_of<C: Chunk, F, U: std::fmt::Debug>(mut iter: MergerIter<C, F>) -> Vec<Vec<u8>>
where
    F: for<'a> Fn(&[u8], &[Cow<'a, [u8]>]) -> Result<Cow<'a, [u8]>, U>,
{
    let mut keys = Vec::new();
    while let Some((k, _)) = iter.next().unwrap() {
        keys.push(k.to_vec());
    }
    keys
}

#[test]
fn a_dump_that_fails_loses_nothing_and_adds_nothing() {
    let calls = Cell::new(0);
    let mut builder = SorterBuilder::new(counting(&calls));
    builder.dump_threshold(0).allow_realloc(false).max_nb_chunks(1);
    let val = vec![1; 4_000_000];
    let mut sorter = builder.chunk_creation(CursorVec).build();
    sorter.insert(b"b", &val).unwrap();
    sorter.insert(b"a", &val).unwrap();
    // The second key of the dump fails.
    calls.set(2);
    assert!(matches!(sorter.insert(b"c", &val), Err(Error::Merge(1))));
    assert_eq!(keys_of(sorter.into_iter().unwrap()), [b"a", b"b"]);
}

#[test]
fn a_merge_of_chunks_that_fails_loses_the_chunks() {
    let calls = Cell::new(0);
    let mut builder = SorterBuilder::new(counting(&calls));
    builder.dump_threshold(0).allow_realloc(false).max_nb_chunks(1);
    let val = vec![1; 4_000_000];
    let mut sorter = builder.chunk_creation(CursorVec).build();
    sorter.insert(b"b", &val).unwrap();
    sorter.insert(b"a", &val).unwrap();
    // The dump calls the function twice; the merge of the chunk fails at once.
    calls.set(3);
    assert!(matches!(sorter.insert(b"c", &val), Err(Error::Merge(1))));
    assert_eq!(keys_of(sorter.into_iter().unwrap()), [b"c"]);
}

#[test]
fn chunks_are_kept_where_none_can_be_made_to_merge_them_into() {
    let made = Cell::new(0);
    let mut builder = SorterBuilder::new(merge);
    builder.dump_threshold(0).allow_realloc(false).max_nb_chunks(1);
    let mut sorter = builder
        .chunk_creation(|| {
            made.set(made.get() + 1);
            if made.get() == 2 {
                Err(std::io::Error::new(std::io::ErrorKind::Other, "no space"))
            } else {
                Ok(Cursor::new())
            }
        })
        .build();
    let val = vec![1; 4_000_000];
    sorter.insert(b"b", &val).unwrap();
    sorter.insert(b"a", &val).unwrap();
    assert!(matches!(sorter.insert(b"c", &val), Err(Error::Io(IoError::Other(_)))));
    assert_eq!(keys_of(sorter.into_iter().unwrap()), [b"a", b"b", b"c"]);
}

/// A chunk whose bytes can be looked at.
struct Shared {
    cursor: Cursor,
    seen: Rc<RefCell<Vec<u8>>>,
}

impl Read for Shared {
    fn read_exact(&mut self, n: usize) -> Result<Vec<u8>, IoError> {
        self.cursor.read_exact(n)
    }
}

impl Write for Shared {
    fn write_all(&mut self, bytes: &[u8]) -> Result<(), IoError> {
        self.seen.borrow_mut().extend_from_slice(bytes);
        self.cursor.write_all(bytes)
    }
}

impl Chunk for Shared {
    fn rewind(&mut self) -> Result<(), IoError> {
        self.cursor.rewind()
    }
}

#[test]
fn chunks_are_compressed_as_asked() {
    for (compression, expected) in [
        (CompressionType::Uncompressed, vec![0, 0, 0, 0, 0, 0, 0, 0, 4, 1, 1, b'a', b'b']),
        (
            CompressionType::Snappy,
            vec![1, 0, 0, 0, 0, 0, 0, 0, 6, 4, 12, 1, 1, b'a', b'b'],
        ),
    ] {
        let seen = Rc::new(RefCell::new(Vec::new()));
        let mut builder = SorterBuilder::new(merge);
        builder.chunk_compression_type(compression);
        let mut sorter = builder
            .chunk_creation(|| {
                Ok::<_, IoError>(Shared { cursor: Cursor::new(), seen: Rc::clone(&seen) })
            })
            .build();
        sorter.insert(b"a", b"b").unwrap();
        assert_eq!(keys_of(sorter.into_iter().unwrap()), [b"a"]);
        assert_eq!(*seen.borrow(), expected);
    }
}

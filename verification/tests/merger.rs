use grenad::io::Read;
use grenad::merger::merge_into;
use grenad::{Error, IoError, Merger, MergerBuilder, Reader, WriterBuilder};
use std::borrow::Cow;
use std::convert::Infallible;

fn concat<'a>(_key: &[u8], vals: &[Cow<'a, [u8]>]) -> Result<Cow<'a, [u8]>, Infallible> {
    Ok(vals.iter().map(AsRef::as_ref).flatten().cloned().collect())
}

fn first<'a>(_key: &[u8], vals: &[Cow<'a, [u8]>]) -> Result<Cow<'a, [u8]>, Infallible> {
    Ok(vals[0].clone())
}

/// Fails on every key but the empty one.
fn refuse<'a>(key: &[u8], _vals: &[Cow<'a, [u8]>]) -> Result<Cow<'a, [u8]>, Vec<u8>> {
    if key.is_empty() {
        Ok(Cow::Borrowed(b"none"))
    } else {
        Err(key.to_vec())
    }
}

fn file(entries: &[(&str, &str)]) -> Vec<u8> {
    let mut writer = WriterBuilder::new().memory();
    for (k, v) in entries {
        writer.insert(k.as_bytes(), v.as_bytes()).unwrap();
    }
    writer.into_inner().unwrap()
}

fn entries_of(bytes: &[u8]) -> Vec<(String, String)> {
    let mut reader = Reader::new(bytes).unwrap();
    let mut out = Vec::new();
    while let Some((k, v)) = reader.next().unwrap() {
        let k = String::from_utf8(k.to_vec()).unwrap();
        let v = String::from_utf8(v.to_vec()).unwrap();
        out.push((k, v));
    }
    out
}

fn merged(files: &[&[(&str, &str)]]) -> Vec<(String, String)> {
    let files: Vec<Vec<u8>> = files.iter().map(|entries| file(entries)).collect();
    let mut builder = Merger::builder(concat);
    for file in &files {
        builder.push(Reader::new(file.as_slice()).unwrap());
    }
    let mut writer = WriterBuilder::new().memory();
    builder.build().write_into(&mut writer).unwrap();
    entries_of(&writer.into_inner().unwrap())
}

fn pairs(expected: &[(&str, &str)]) -> Vec<(String, String)> {
    expected.iter().map(|(k, v)| (k.to_string(), v.to_string())).collect()
}

#[test]
fn sorted_sources_merge_into_one_sorted_run() {
    let out = merged(&[
        &[("a", "1"), ("c", "2"), ("e", "3")],
        &[("b", "4"), ("c", "5")],
        &[],
        &[("c", "6"), ("d", "7")],
    ]);
    assert_eq!(out, pairs(&[("a", "1"), ("b", "4"), ("c", "256"), ("d", "7"), ("e", "3")]));
}

#[test]
fn no_sources_merge_into_nothing() {
    assert_eq!(merged(&[]), []);
    assert_eq!(merged(&[&[], &[]]), []);
}

#[test]
fn the_values_of_a_key_come_one_source_after_the_other() {
    let out = merged(&[&[("k", "first ")], &[("k", "second ")], &[("k", "third")]]);
    assert_eq!(out, pairs(&[("k", "first second third")]));
}

#[test]
fn the_empty_key_gives_way_to_others() {
    assert_eq!(merged(&[&[("", "lost"), ("a", "1")]]), pairs(&[("a", "1")]));
    assert_eq!(merged(&[&[("", "lost")], &[("a", "1")]]), pairs(&[("a", "1")]));
    assert_eq!(merged(&[&[("", "lost")], &[("", "kept")]]), pairs(&[("", "kept")]));
    assert_eq!(merged(&[&[("", "kept")]]), pairs(&[("", "kept")]));
}

#[test]
fn a_key_twice_in_one_source_is_merged_too() {
    assert_eq!(merged(&[&[("a", "1"), ("a", "2"), ("b", "3")]]), pairs(&[("a", "12"), ("b", "3")]));
}

#[test]
fn an_iterator_yields_entry_by_entry_and_stays_at_the_end() {
    let (x, y) = (file(&[("a", "1"), ("b", "2")]), file(&[("b", "3")]));
    let mut builder = MergerBuilder::new(first);
    builder.add(Reader::new(x.as_slice()).unwrap()).add(Reader::new(y.as_slice()).unwrap());
    let mut iter = builder.build().into_merge_iter().unwrap();
    assert_eq!(iter.next().unwrap(), Some((&b"a"[..], &b"1"[..])));
    assert_eq!(iter.next().unwrap(), Some((&b"b"[..], &b"2"[..])));
    assert_eq!(iter.next().unwrap(), None);
    assert_eq!(iter.next().unwrap(), None);
}

#[test]
fn sources_can_be_added_together() {
    let files = [file(&[("a", "1")]), file(&[("a", "2")])];
    let readers: Vec<_> = files.iter().map(|f| Reader::new(f.as_slice()).unwrap()).collect();
    let mut builder = MergerBuilder::new(concat);
    builder.extend(readers);
    let mut iter = builder.build().into_merge_iter().unwrap();
    assert_eq!(iter.next().unwrap(), Some((&b"a"[..], &b"12"[..])));
}

#[test]
fn a_merge_function_that_fails() {
    let bytes = file(&[("a", "1"), ("b", "2")]);
    let mut builder = MergerBuilder::new(refuse);
    builder.push(Reader::new(bytes.as_slice()).unwrap());
    let mut iter = builder.build().into_merge_iter().unwrap();
    assert!(matches!(iter.next(), Err(Error::Merge(key)) if key == b"a"));
    assert!(matches!(iter.next(), Err(Error::Merge(key)) if key == b"b"));
    // What the function has not merged is still to be merged, without a key.
    assert_eq!(iter.next().unwrap(), Some((&b""[..], &b"none"[..])));
    assert_eq!(iter.next().unwrap(), None);
}

#[test]
fn writing_stops_where_the_merge_function_fails() {
    let bytes = file(&[("a", "1")]);
    let readers = vec![Reader::new(bytes.as_slice()).unwrap()];
    let mut writer = WriterBuilder::new().memory();
    writer.insert(b"before", b"").unwrap();
    let stopped = merge_into(readers, &refuse, &mut writer);
    assert!(matches!(stopped, Err(Error::Merge(key)) if key == b"a"));
    assert_eq!(entries_of(&writer.into_inner().unwrap()), pairs(&[("before", "")]));
}

#[test]
fn a_source_that_ends_too_early() {
    let mut bytes = file(&[("a", "1")]);
    bytes.extend_from_slice(&[0, 0, 0, 0, 0, 0, 0, 9, 1]);
    let mut builder = MergerBuilder::new(concat);
    builder.push(Reader::new(bytes.as_slice()).unwrap());
    let mut iter = builder.build().into_merge_iter().unwrap();
    assert!(matches!(iter.next(), Err(Error::Io(IoError::UnexpectedEof))));
}

#[test]
fn a_source_that_spells_no_entry() {
    let bytes = [0, 0, 0, 0, 0, 0, 0, 0, 2, 9, 9];
    let mut builder = MergerBuilder::new(concat);
    builder.push(Reader::new(&bytes[..]).unwrap());
    assert!(matches!(builder.build().into_merge_iter(), Err(Error::InvalidBlock)));
}

#[test]
fn a_merge_goes_on_after_a_source_failed() {
    let mut bytes = file(&[("a", "1")]);
    bytes.extend_from_slice(&[0, 0, 0, 0, 0, 0, 0, 8, 1]);
    let other = file(&[("b", "2")]);
    let mut builder = MergerBuilder::new(concat);
    builder.push(Reader::new(bytes.as_slice()).unwrap());
    builder.push(Reader::new(other.as_slice()).unwrap());
    let mut iter = builder.build().into_merge_iter().unwrap();
    assert!(matches!(iter.next(), Err(Error::Io(IoError::UnexpectedEof))));
    // An empty entry stands for the source, and gives way. The source reads its block
    // again, and after it empty entries in place of the bytes that were not there.
    assert_eq!(iter.next().unwrap(), Some((&b"a"[..], &b"1"[..])));
    assert_eq!(iter.next().unwrap(), Some((&b"b"[..], &b"2"[..])));
    assert_eq!(iter.next().unwrap(), None);
}

/// A source that fails after so many bytes.
struct Failing(Vec<u8>, usize);

impl Read for Failing {
    fn read_exact(&mut self, n: usize) -> Result<Vec<u8>, IoError> {
        let end = self.1 + n;
        if end > self.0.len() {
            return Err(IoError::Other(std::io::Error::new(std::io::ErrorKind::Other, "gone")));
        }
        let bytes = self.0[self.1..end].to_vec();
        self.1 = end;
        Ok(bytes)
    }
}

#[test]
fn what_was_merged_before_a_fault_is_written() {
    let bytes = file(&[("a", "1"), ("b", "2"), ("c", "3")]);
    let mut builder = MergerBuilder::new(concat);
    builder.push(Reader::new(Failing(bytes, 0)).unwrap());
    let mut writer = WriterBuilder::new().memory();
    let stopped = builder.build().write_into(&mut writer);
    assert!(matches!(stopped, Err(Error::Io(IoError::Other(_)))));
    assert_eq!(entries_of(&writer.into_inner().unwrap()), pairs(&[("a", "1"), ("b", "2")]));
}

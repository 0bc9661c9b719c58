use grenad::entries::Entries;

fn all(entries: &Entries) -> Vec<(Vec<u8>, Vec<u8>)> {
    entries.iter().into_iter().map(|(k, v)| (k.to_vec(), v.to_vec())).collect()
}

fn pairs(expected: &[(&str, &str)]) -> Vec<(Vec<u8>, Vec<u8>)> {
    expected.iter().map(|(k, v)| (k.as_bytes().to_vec(), v.as_bytes().to_vec())).collect()
}

#[test]
fn capacities_are_rounded_up() {
    assert_eq!(Entries::with_capacity(0).memory_usage(), 0);
    assert_eq!(Entries::with_capacity(1).memory_usage(), 16);
    assert_eq!(Entries::with_capacity(16).memory_usage(), 16);
    assert_eq!(Entries::with_capacity(17).memory_usage(), 32);
}

#[test]
fn entries_come_out_in_the_order_of_insertion() {
    let mut entries = Entries::with_capacity(1024);
    entries.insert(b"b", b"1");
    entries.insert(b"a", b"");
    entries.insert(b"", b"22");
    assert_eq!(entries.len(), 3);
    assert_eq!(all(&entries), pairs(&[("b", "1"), ("a", ""), ("", "22")]));
    assert_eq!(entries.entry(2), (&b""[..], &b"22"[..]));
    assert_eq!(entries.memory_usage(), 1024);
}

#[test]
fn sorting_keeps_the_values_of_a_key_in_order() {
    let mut entries = Entries::with_capacity(1024);
    for (k, v) in [("b", "1"), ("a", "2"), ("ab", "3"), ("a", "4"), ("", "5"), ("b", "6")] {
        entries.insert(k.as_bytes(), v.as_bytes());
    }
    entries.sort_unstable_by_key();
    assert_eq!(
        all(&entries),
        pairs(&[("", "5"), ("a", "2"), ("a", "4"), ("ab", "3"), ("b", "1"), ("b", "6")])
    );
    entries.insert(b"a", b"7");
    assert_eq!(entries.entry(6), (&b"a"[..], &b"7"[..]));
}

#[test]
fn the_buffer_doubles_until_an_entry_fits() {
    let mut entries = Entries::with_capacity(32);
    assert!(entries.fits(b"key", b"0123456789abc"));
    assert!(!entries.fits(b"key", b"0123456789abcd"));
    entries.insert(b"key", b"0123456789abc");
    assert_eq!(entries.memory_usage(), 32);
    assert!(!entries.fits(b"", b""));
    // 32 bytes are taken and 16 + 1 + 100 are needed: 64 and 128 are too few.
    entries.insert(b"k", &[5; 100]);
    assert_eq!(entries.memory_usage(), 256);
    assert_eq!(entries.entry(0), (&b"key"[..], &b"0123456789abc"[..]));
    assert_eq!(entries.entry(1), (&b"k"[..], &[5; 100][..]));
}

#[test]
fn what_remains_is_what_the_entries_do_not_take() {
    assert_eq!(Entries::entry_size(b"key", b"value"), 16 + 3 + 5);
    let mut entries = Entries::with_capacity(128);
    assert_eq!(entries.remaining(), 128);
    entries.insert(b"key", b"value");
    assert_eq!(entries.remaining(), 128 - 24);
    entries.insert(b"", b"");
    assert_eq!(entries.remaining(), 128 - 24 - 16);
    entries.sort_unstable_by_key();
    assert_eq!(entries.remaining(), 128 - 24 - 16);
    // 16 + 1 + 100 do not fit into 88.
    entries.insert(b"k", &[5; 100]);
    assert_eq!(entries.memory_usage(), 256);
    assert_eq!(entries.remaining(), 256 - 24 - 16 - 117);
    entries.clear();
    assert_eq!(entries.remaining(), 256);
}

#[test]
fn clearing_keeps_the_buffer() {
    let mut entries = Entries::with_capacity(64);
    entries.insert(b"k", &[5; 40]);
    assert!(!entries.fits(b"k", &[5; 40]));
    entries.clear();
    assert_eq!(entries.len(), 0);
    assert_eq!(entries.memory_usage(), 64);
    assert!(entries.fits(b"k", &[5; 40]));
}

#[test]
fn many_entries_are_sorted() {
    let mut entries = Entries::with_capacity(16);
    let mut n: u32 = 12345;
    let mut expected = Vec::new();
    for i in 0..2000u32 {
        n = n.wrapping_mul(1_103_515_245).wrapping_add(12345);
        let key = (n >> 16) as u8;
        entries.insert(&[key], &i.to_be_bytes());
        expected.push((vec![key], i.to_be_bytes().to_vec()));
    }
    expected.sort_by(|a, b| a.0.cmp(&b.0));
    entries.sort_unstable_by_key();
    assert_eq!(all(&entries), expected);
}

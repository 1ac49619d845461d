use cdx::errors::CdxError;
use cdx::history::{Entry, History};

fn entry(raw: &str, canonical: &str) -> Entry {
    Entry::new(raw.to_string(), canonical.to_string())
}

#[test]
fn append_keeps_insertion_order() {
    let mut h = History::new();
    h.append_last(entry("/a", "/a"));
    h.append_last(entry("/b", "/b"));
    h.append_last(entry("/c", "/c"));
    let window = h.read(10);
    assert_eq!(window.len(), 3);
    assert_eq!(window[0].canonical, "/c");
    assert_eq!(window[1].canonical, "/b");
    assert_eq!(window[2].canonical, "/a");
}

#[test]
fn append_dedups_by_canonical_and_promotes() {
    let mut h = History::new();
    h.append_last(entry("/a", "/a"));
    h.append_last(entry("/b", "/b"));
    h.append_last(entry("^a", "/a"));
    let window = h.read(10);
    assert_eq!(window.len(), 2);
    assert_eq!(window[0].canonical, "/a");
    assert_eq!(window[0].raw, "^a");
    assert_eq!(window[1].canonical, "/b");
    for i in 0..window.len() {
        for j in 0..i {
            assert_ne!(window[i].canonical, window[j].canonical);
        }
    }
}

#[test]
fn append_dedup_holds_over_many_appends() {
    let mut h = History::new();
    let canonicals = ["/a", "/b", "/a", "/c", "/b", "/a", "/a", "/c"];
    for (k, c) in canonicals.iter().enumerate() {
        h.append_last(entry(&format!("visit{}", k), c));
    }
    let window = h.read(100);
    assert_eq!(window.len(), 3);
    for i in 0..window.len() {
        for j in 0..i {
            assert_ne!(window[i].canonical, window[j].canonical);
        }
    }
    assert_eq!(window[0].canonical, "/c");
    assert_eq!(window[1].canonical, "/a");
    assert_eq!(window[2].canonical, "/b");
}

#[test]
fn read_returns_min_of_size_and_len() {
    let mut h = History::new();
    h.append_last(entry("/a", "/a"));
    h.append_last(entry("/b", "/b"));
    h.append_last(entry("/c", "/c"));
    assert_eq!(h.read(0).len(), 0);
    assert_eq!(h.read(2).len(), 2);
    assert_eq!(h.read(3).len(), 3);
    assert_eq!(h.read(17).len(), 3);
}

#[test]
fn read_is_a_pure_view() {
    let mut h = History::new();
    h.append_last(entry("/a", "/a"));
    h.append_last(entry("/b", "/b"));
    let first = h.read(10);
    let second = h.read(10);
    assert_eq!(first, second);
    assert_eq!(first[0].canonical, "/b");
    assert_eq!(first[1].canonical, "/a");
}

#[test]
fn save_open_round_trip_preserves_order_and_fields() {
    let mut h = History::new();
    h.append_last(entry("/home/u/proj", "/home/u/proj"));
    h.append_last(entry("^proj", "/home/u/pro\u{00df}e"));
    h.append_last(entry("", "/"));
    h.append_last(entry("^(selected)", "/home/u/\u{1F4C1}"));
    let bytes = h.to_bytes();
    let reopened = History::from_bytes(&bytes).expect("the encoding must decode");
    assert_eq!(reopened.read(100), h.read(100));
}

#[test]
fn empty_history_round_trips() {
    let h = History::new();
    let bytes = h.to_bytes();
    let reopened = History::from_bytes(&bytes).expect("the encoding must decode");
    assert_eq!(reopened.read(100).len(), 0);
}

#[test]
fn truncated_bytes_are_corrupt() {
    let mut h = History::new();
    h.append_last(entry("/a", "/a"));
    let mut bytes = h.to_bytes();
    bytes.pop();
    match History::from_bytes(&bytes) {
        Err(CdxError::CorruptStore(_)) => {}
        other => panic!("expected CorruptStore, got {:?}", other.map(|h| h.read(10))),
    }
}

#[test]
fn trailing_bytes_are_corrupt() {
    let mut h = History::new();
    h.append_last(entry("/a", "/a"));
    let mut bytes = h.to_bytes();
    bytes.push(0);
    assert!(matches!(
        History::from_bytes(&bytes),
        Err(CdxError::CorruptStore(_))
    ));
}

#[test]
fn garbage_bytes_are_corrupt() {
    let bytes = vec![1u8, 2, 3];
    assert!(matches!(
        History::from_bytes(&bytes),
        Err(CdxError::CorruptStore(_))
    ));
}

#[test]
fn surrogate_scalar_in_bytes_is_corrupt() {
    // One entry whose raw string claims one character with the
    // surrogate value 0xD800: no character has it, so decoding fails.
    let mut bytes = Vec::new();
    bytes.extend_from_slice(&[1, 0, 0, 0, 0, 0, 0, 0]); // one entry
    bytes.extend_from_slice(&[1, 0, 0, 0, 0, 0, 0, 0]); // raw: one char
    bytes.extend_from_slice(&[0x00, 0xD8, 0x00, 0x00]); // surrogate
    bytes.extend_from_slice(&[0, 0, 0, 0, 0, 0, 0, 0]); // canonical: empty
    assert!(matches!(
        History::from_bytes(&bytes),
        Err(CdxError::CorruptStore(_))
    ));
}

#[test]
fn the_byte_format_is_pinned_down() {
    // One entry, raw "A", canonical "/a": count and lengths as
    // eight-byte little-endian values, characters as four-byte
    // little-endian scalar values.
    let mut expected = Vec::new();
    expected.extend_from_slice(&[1, 0, 0, 0, 0, 0, 0, 0]); // one entry
    expected.extend_from_slice(&[1, 0, 0, 0, 0, 0, 0, 0]); // raw: one char
    expected.extend_from_slice(&[0x41, 0, 0, 0]); // 'A'
    expected.extend_from_slice(&[2, 0, 0, 0, 0, 0, 0, 0]); // canonical: two chars
    expected.extend_from_slice(&[0x2F, 0, 0, 0, 0x61, 0, 0, 0]); // "/a"

    let mut h = History::new();
    h.append_last(entry("A", "/a"));
    assert_eq!(h.to_bytes(), expected);

    let reopened = History::from_bytes(&expected).expect("the encoding must decode");
    let window = reopened.read(10);
    assert_eq!(window.len(), 1);
    assert_eq!(window[0].raw, "A");
    assert_eq!(window[0].canonical, "/a");
}

#[test]
fn with_raw_keeps_canonical() {
    let e = entry("/a/b", "/a/b");
    let tagged = e.with_raw("^b".to_string());
    assert_eq!(tagged.canonical, "/a/b");
    assert_eq!(tagged.raw, "^b");
    assert_eq!(e.raw, "/a/b");
}

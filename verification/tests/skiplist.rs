use skip_index::{Layer, SkipList};
use tantivy_common::BinarySerializable;

/// Append the external codec's serialization of `x` (eight little-endian
/// bytes) to `out`.
fn put_u64(out: &mut Vec<u8>, x: u64) {
    x.serialize(out).unwrap();
}

/// Serialize an offset header with the external codec: a variable-length
/// count followed by one `u64` per offset.
fn header(offsets: &[u64]) -> Vec<u8> {
    let v: Vec<u64> = offsets.to_vec();
    let mut out: Vec<u8> = Vec::new();
    v.serialize(&mut out).unwrap();
    out
}

/// One layer region: the first entry's key up front, then each value
/// followed by the next entry's key; the last value has no trailing key.
fn layer_bytes(entries: &[(u64, u64)]) -> Vec<u8> {
    let mut out: Vec<u8> = Vec::new();
    for (i, (k, v)) in entries.iter().enumerate() {
        if i == 0 {
            put_u64(&mut out, *k);
        }
        put_u64(&mut out, *v);
        if i + 1 < entries.len() {
            put_u64(&mut out, entries[i + 1].0);
        }
    }
    out
}

/// The scenario buffer: data layer entries (1, 97), (5, 98), (9, 99) under
/// one skip layer pointing at entry 1 (byte offset 16) and entry 2 (byte
/// offset 32) of the data layer.
fn two_level_buffer() -> Vec<u8> {
    let skip = layer_bytes(&[(5, 16), (9, 32)]);
    let data = layer_bytes(&[(1, 97), (5, 98), (9, 99)]);
    let mut buf = header(&[skip.len() as u64, (skip.len() + data.len()) as u64]);
    buf.extend_from_slice(&skip);
    buf.extend_from_slice(&data);
    buf
}

#[test]
fn seek_is_a_predecessor_search() {
    let buf = two_level_buffer();
    let cases: [(u64, Option<(u64, u64)>); 8] = [
        (0, None),
        (1, None),
        (2, Some((1, 97))),
        (5, Some((1, 97))),
        (6, Some((5, 98))),
        (9, Some((5, 98))),
        (10, Some((9, 99))),
        (100, Some((9, 99))),
    ];
    for (key, expected) in cases.iter() {
        let mut sl: SkipList<u64> = SkipList::from_bytes(&buf).unwrap();
        assert_eq!(sl.seek(*key), *expected);
    }
}

#[test]
fn seeks_in_non_decreasing_order_share_one_cursor() {
    let buf = two_level_buffer();
    let mut sl: SkipList<u64> = SkipList::from_bytes(&buf).unwrap();
    assert_eq!(sl.seek(0), None);
    assert_eq!(sl.seek(5), Some((1, 97)));
    assert_eq!(sl.seek(6), Some((5, 98)));
    assert_eq!(sl.seek(100), Some((9, 99)));
    // forward-only: the last entry has been passed, nothing qualifies now
    assert_eq!(sl.seek(100), None);
}

#[test]
fn iteration_yields_every_entry_in_order() {
    let buf = two_level_buffer();
    let mut sl: SkipList<u64> = SkipList::from_bytes(&buf).unwrap();
    assert_eq!(sl.produce_next(), Some((1, 97)));
    assert_eq!(sl.produce_next(), Some((5, 98)));
    assert_eq!(sl.produce_next(), Some((9, 99)));
    assert_eq!(sl.produce_next(), None);
}

#[test]
fn exhaustion_is_idempotent() {
    let buf = two_level_buffer();
    let mut sl: SkipList<u64> = SkipList::from_bytes(&buf).unwrap();
    while sl.produce_next().is_some() {}
    assert_eq!(sl.produce_next(), None);
    assert_eq!(sl.produce_next(), None);
}

#[test]
fn seek_then_iterate_continues_right_after_the_match() {
    let buf = two_level_buffer();

    // the suffix after seeking is the suffix of a full iteration that skips
    // every entry with a key at or below the matched one
    let mut sl: SkipList<u64> = SkipList::from_bytes(&buf).unwrap();
    assert_eq!(sl.seek(6), Some((5, 98)));
    assert_eq!(sl.produce_next(), Some((9, 99)));
    assert_eq!(sl.produce_next(), None);

    let mut sl: SkipList<u64> = SkipList::from_bytes(&buf).unwrap();
    assert_eq!(sl.seek(2), Some((1, 97)));
    assert_eq!(sl.produce_next(), Some((5, 98)));
    assert_eq!(sl.produce_next(), Some((9, 99)));
    assert_eq!(sl.produce_next(), None);

    // a seek that matches nothing leaves the whole iteration ahead
    let mut sl: SkipList<u64> = SkipList::from_bytes(&buf).unwrap();
    assert_eq!(sl.seek(1), None);
    assert_eq!(sl.produce_next(), Some((1, 97)));
}

#[test]
fn zero_layer_buffer_is_empty() {
    let buf = header(&[]);
    let mut sl: SkipList<u64> = SkipList::from_bytes(&buf).unwrap();
    assert_eq!(sl.seek(42), None);
    assert_eq!(sl.produce_next(), None);

    // trailing bytes after a zero-layer header belong to no layer
    let mut buf = header(&[]);
    buf.extend_from_slice(&[1, 2, 3, 4]);
    let mut sl: SkipList<u64> = SkipList::from_bytes(&buf).unwrap();
    assert_eq!(sl.seek(42), None);
    assert_eq!(sl.produce_next(), None);
}

#[test]
fn single_layer_structure_scans_linearly() {
    let data = layer_bytes(&[(3, 30), (7, 70)]);
    let mut buf = header(&[data.len() as u64]);
    buf.extend_from_slice(&data);
    let mut sl: SkipList<u64> = SkipList::from_bytes(&buf).unwrap();
    assert_eq!(sl.seek(7), Some((3, 30)));
    assert_eq!(sl.seek(8), Some((7, 70)));
    assert_eq!(sl.produce_next(), None);
}

#[test]
fn malformed_headers_are_hard_errors() {
    // nothing at all: no readable count
    assert!(SkipList::<u64>::from_bytes(&[]).is_none());
    // a count byte without its stop bit, then nothing
    assert!(SkipList::<u64>::from_bytes(&[0u8]).is_none());
    // the count announces two offsets, bytes for barely one follow
    let mut buf: Vec<u8> = vec![2u8 | 128u8];
    buf.extend_from_slice(&[0u8; 9]);
    assert!(SkipList::<u64>::from_bytes(&buf).is_none());
    // offsets that shrink
    let buf = header(&[16, 8]);
    assert!(SkipList::<u64>::from_bytes(&buf).is_none());
    // an offset pointing past the end of the buffer
    let buf = header(&[1000]);
    assert!(SkipList::<u64>::from_bytes(&buf).is_none());
}

#[test]
fn truncated_value_reads_as_exhaustion() {
    // key 4, value 40, then key 8 whose value is cut short
    let mut data: Vec<u8> = Vec::new();
    put_u64(&mut data, 4);
    put_u64(&mut data, 40);
    put_u64(&mut data, 8);
    data.extend_from_slice(&[1, 2, 3]);
    let mut buf = header(&[data.len() as u64]);
    buf.extend_from_slice(&data);
    let mut sl: SkipList<u64> = SkipList::from_bytes(&buf).unwrap();
    assert_eq!(sl.produce_next(), Some((4, 40)));
    assert_eq!(sl.produce_next(), None);
    assert_eq!(sl.produce_next(), None);
}

#[test]
fn layer_cursor_produces_and_seeks() {
    let bytes = layer_bytes(&[(1, 97), (5, 98), (9, 99)]);
    let mut layer: Layer<u64> = Layer::from_bytes(&bytes);
    assert_eq!(layer.produce_next(), Some((1, 97)));
    assert_eq!(layer.produce_next(), Some((5, 98)));
    assert_eq!(layer.produce_next(), Some((9, 99)));
    assert_eq!(layer.produce_next(), None);

    let mut layer: Layer<u64> = Layer::from_bytes(&bytes);
    assert_eq!(layer.seek(6), Some((5, 98)));
    // forward-only: the same query again finds nothing more below it
    assert_eq!(layer.seek(6), None);
    assert_eq!(layer.produce_next(), Some((9, 99)));
}

#[test]
fn layer_seek_offset_repositions_the_cursor() {
    let bytes = layer_bytes(&[(1, 97), (5, 98), (9, 99)]);
    let mut layer: Layer<u64> = Layer::from_bytes(&bytes);
    layer.seek_offset(32);
    assert_eq!(layer.produce_next(), Some((9, 99)));
    assert_eq!(layer.produce_next(), None);
    // a layer-level reposition may also rewind
    layer.seek_offset(0);
    assert_eq!(layer.produce_next(), Some((1, 97)));
    layer.seek_offset(16);
    assert_eq!(layer.seek(100), Some((9, 99)));
}

#[test]
fn empty_layers_have_no_entries() {
    let mut layer: Layer<u64> = Layer::empty();
    assert_eq!(layer.produce_next(), None);
    assert_eq!(layer.seek(5), None);
    let empty: Vec<u8> = Vec::new();
    let mut layer: Layer<u64> = Layer::from_bytes(&empty);
    assert_eq!(layer.produce_next(), None);
}

#[test]
fn keys_and_values_use_little_endian_bytes() {
    // the same region built by hand, least-significant byte first
    let mut data: Vec<u8> = Vec::new();
    data.extend_from_slice(&0x0102030405060708u64.to_le_bytes());
    data.extend_from_slice(&77u64.to_le_bytes());
    let mut buf: Vec<u8> = vec![1u8 | 128u8];
    buf.extend_from_slice(&(data.len() as u64).to_le_bytes());
    buf.extend_from_slice(&data);
    let mut sl: SkipList<u64> = SkipList::from_bytes(&buf).unwrap();
    assert_eq!(sl.produce_next(), Some((0x0102030405060708, 77)));
    assert_eq!(sl.produce_next(), None);
}

#[test]
fn greatest_key_below_the_maximum_is_reachable() {
    let data = layer_bytes(&[(2, 20), (u64::MAX - 1, 30)]);
    let mut buf = header(&[data.len() as u64]);
    buf.extend_from_slice(&data);
    let mut sl: SkipList<u64> = SkipList::from_bytes(&buf).unwrap();
    assert_eq!(sl.seek(u64::MAX), Some((u64::MAX - 1, 30)));
}

use liteparse::font_db::{load_shard, FontDbResolver, Segment};

fn segment(kind: i32, x: f32, y: f32) -> Segment {
    Segment { kind, x: x.to_bits(), y: y.to_bits() }
}

fn prefix(key: &[u8]) -> u16 {
    u16::from(key[0]) << 8 | u16::from(key[1])
}

fn record(key: &[u8], unicode: u32) -> Vec<u8> {
    let mut buf = Vec::new();
    rmp::encode::write_array_len(&mut buf, 2).unwrap();
    rmp::encode::write_bin(&mut buf, key).unwrap();
    rmp::encode::write_uint(&mut buf, u64::from(unicode)).unwrap();
    buf
}

#[test]
fn resolves_known_glyph_and_misses_unknown() {
    let segs = vec![segment(2, 1.0, 2.0), segment(0, 3.5, -1.0), segment(1, 0.0, 0.0)];
    let key = FontDbResolver::glyph_key(&segs);
    let mut resolver = FontDbResolver::new("fonts".to_string());
    let missing = resolver.missing_shard(&segs).unwrap();
    assert_eq!(missing, prefix(&key));
    resolver.provide(missing, Some(record(&key, 0x160)));
    assert_eq!(resolver.missing_shard(&segs), None);
    assert_eq!(resolver.resolve(&segs).as_deref(), Some("Š"));
    let other = vec![segment(2, 9.0, 9.0)];
    if let Some(p) = resolver.missing_shard(&other) {
        resolver.provide(p, Some(vec![]));
    }
    assert_eq!(resolver.resolve(&other), None);
}

#[test]
fn missing_directory_yields_no_match() {
    let mut resolver = FontDbResolver::new("/nonexistent/liteparse/font/db".to_string());
    let segs = vec![segment(2, 1.0, 2.0)];
    assert_eq!(resolver.resolve(&segs), None);
    let p = resolver.missing_shard(&segs).unwrap();
    resolver.provide(p, None);
    assert_eq!(resolver.missing_shard(&segs), None);
    assert_eq!(resolver.resolve(&segs), None);
}

#[test]
fn keys_are_hashes_of_packed_segments() {
    let segs = vec![segment(-1, 1.0, -2.5)];
    let mut bytes = Vec::new();
    bytes.extend_from_slice(&(-1i32).to_le_bytes());
    bytes.extend_from_slice(&1.0f32.to_le_bytes());
    bytes.extend_from_slice(&(-2.5f32).to_le_bytes());
    let want = blake3::hash(&bytes).as_bytes()[..16].to_vec();
    assert_eq!(FontDbResolver::glyph_key(&segs), want);
}

#[test]
fn shard_files_are_named_by_prefix() {
    assert_eq!(FontDbResolver::shard_file(0x0aff), "0aff.msgpack");
    assert_eq!(FontDbResolver::shard_file(3), "0003.msgpack");
}

#[test]
fn shards_are_read_record_by_record() {
    let a = [1u8; 16];
    let b = [2u8; 20];
    let mut bytes = record(&a, 0x41);
    bytes.extend(record(&b, 0xFB01));
    bytes.extend(record(&a, 70_000));
    let map = load_shard(&bytes);
    assert_eq!(map.len(), 2);
    assert_eq!(map.get(&u128::from_be_bytes([1u8; 16])), Some(&70_000));
    assert_eq!(map.get(&u128::from_be_bytes([2u8; 16])), Some(&0xFB01));
}

#[test]
fn reading_ends_at_the_first_malformed_record() {
    let a = [1u8; 16];
    let mut short = record(&a, 0x41);
    short.extend(record(&[3u8; 15], 0x42));
    short.extend(record(&[4u8; 16], 0x43));
    assert_eq!(load_shard(&short).len(), 1);
    let mut cut = record(&a, 0x41);
    let more = record(&[5u8; 16], 0x1_0000);
    cut.extend_from_slice(&more[..more.len() - 1]);
    assert_eq!(load_shard(&cut).len(), 1);
    let mut wrong = Vec::new();
    rmp::encode::write_array_len(&mut wrong, 3).unwrap();
    assert!(load_shard(&wrong).is_empty());
    let mut negative = Vec::new();
    rmp::encode::write_array_len(&mut negative, 2).unwrap();
    rmp::encode::write_bin(&mut negative, &a).unwrap();
    rmp::encode::write_sint(&mut negative, -5).unwrap();
    assert!(load_shard(&negative).is_empty());
    let mut large = Vec::new();
    rmp::encode::write_array_len(&mut large, 2).unwrap();
    rmp::encode::write_bin(&mut large, &a).unwrap();
    rmp::encode::write_uint(&mut large, 0x1_0000_0000).unwrap();
    assert!(load_shard(&large).is_empty());
}

#[test]
fn headers_of_all_sizes_are_read() {
    let mut bytes = Vec::new();
    bytes.extend_from_slice(&[0xdc, 0, 2]);
    bytes.extend_from_slice(&[0xc5, 0, 16]);
    bytes.extend_from_slice(&[7u8; 16]);
    bytes.extend_from_slice(&[0xd1, 0x01, 0x00]);
    bytes.extend_from_slice(&[0xdd, 0, 0, 0, 2]);
    bytes.extend_from_slice(&[0xc6, 0, 0, 0, 16]);
    bytes.extend_from_slice(&[8u8; 16]);
    bytes.extend_from_slice(&[0xcf, 0, 0, 0, 0, 0, 1, 0, 0]);
    let map = load_shard(&bytes);
    assert_eq!(map.get(&u128::from_be_bytes([7u8; 16])), Some(&0x100));
    assert_eq!(map.get(&u128::from_be_bytes([8u8; 16])), Some(&0x1_0000));
}

#[test]
fn controls_and_ligatures_of_the_database() {
    let segs = vec![segment(0, 1.0, 1.0)];
    let key = FontDbResolver::glyph_key(&segs);
    let p = prefix(&key);
    let mut control = FontDbResolver::new(String::new());
    control.provide(p, Some(record(&key, 0x07)));
    assert_eq!(control.resolve(&segs), None);
    let mut ligature = FontDbResolver::new(String::new());
    ligature.provide(p, Some(record(&key, 0xFB03)));
    ligature.provide(p, Some(record(&key, 0x41)));
    assert_eq!(ligature.resolve(&segs).as_deref(), Some("ffi"));
    assert_eq!(ligature.resolve_key(&key).as_deref(), Some("ffi"));
}

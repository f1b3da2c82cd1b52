use chimeric_cache::FileOrRenderedTextKey;

#[test]
fn test_path() {
    let mut path: Vec<u8> = Vec::new();
    path.extend_from_slice(b"tester");
    path.push(std::path::MAIN_SEPARATOR as u8);
    path.extend_from_slice(b"abc");
    let s = FileOrRenderedTextKey::from_path(&path);

    let mut rhs: Vec<u8> = Default::default();
    rhs.push(b'\x00');
    rhs.extend_from_slice(b"tester");
    rhs.extend_from_slice(&[std::path::MAIN_SEPARATOR as u8]);
    rhs.extend_from_slice(b"abc");
    assert_eq!(s.as_bytes(), rhs.as_slice());
}

#[test]
fn test_text() {
    let mut path: Vec<u8> = Vec::new();
    path.extend_from_slice(b"tester");
    path.push(std::path::MAIN_SEPARATOR as u8);
    path.extend_from_slice(b"abc");
    let s = FileOrRenderedTextKey::from_rendered_text(b"text", &path, 16);

    let mut rhs: Vec<u8> = Default::default();
    rhs.push(b'\x01');
    rhs.extend_from_slice(b"\x10\x00");
    rhs.extend_from_slice(b"text\0");
    rhs.extend_from_slice(b"tester");
    rhs.extend_from_slice(&[std::path::MAIN_SEPARATOR as u8]);
    rhs.extend_from_slice(b"abc");
    assert_eq!(s.as_bytes(), rhs.as_slice());
}

#[test]
fn test_text_wrapped() {
    let mut path: Vec<u8> = Vec::new();
    path.extend_from_slice(b"tester");
    path.push(std::path::MAIN_SEPARATOR as u8);
    path.extend_from_slice(b"abc");
    let s = FileOrRenderedTextKey::from_rendered_wrapped_text(b"text", &path, 16, u32::MAX - 1);

    let mut rhs: Vec<u8> = Default::default();
    rhs.push(b'\x02');
    rhs.extend_from_slice(b"\x10\x00");
    rhs.extend_from_slice(b"\xFE\xFF\xFF\xFF");
    rhs.extend_from_slice(b"text\0");
    rhs.extend_from_slice(b"tester");
    rhs.extend_from_slice(&[std::path::MAIN_SEPARATOR as u8]);
    rhs.extend_from_slice(b"abc");
    assert_eq!(s.as_bytes(), rhs.as_slice());
}

#[test]
fn equal_inputs_give_equal_keys() {
    let a = FileOrRenderedTextKey::from_rendered_text(b"hello", b"fonts/a.ttf", 24);
    let b = FileOrRenderedTextKey::from_rendered_text(b"hello", b"fonts/a.ttf", 24);
    assert!(a == b);
    let c = FileOrRenderedTextKey::from_path(b"fonts/a.ttf");
    let d = FileOrRenderedTextKey::from_path(b"fonts/a.ttf");
    assert!(c == d);
}

#[test]
fn variants_never_collide() {
    // the same fields encoded as each of the three shapes give three
    // different byte sequences
    let path = FileOrRenderedTextKey::from_path(b"x");
    let text = FileOrRenderedTextKey::from_rendered_text(b"", b"x", 0);
    let wrapped = FileOrRenderedTextKey::from_rendered_wrapped_text(b"", b"x", 0, 0);
    assert!(path != text);
    assert!(path != wrapped);
    assert!(text != wrapped);
    assert_eq!(path.as_bytes()[0], 0x00);
    assert_eq!(text.as_bytes()[0], 0x01);
    assert_eq!(wrapped.as_bytes()[0], 0x02);
}

#[test]
fn point_size_is_little_endian() {
    let k = FileOrRenderedTextKey::from_rendered_text(b"t", b"f", 0x1234);
    assert_eq!(&k.as_bytes()[1..3], &[0x34, 0x12]);
    let w = FileOrRenderedTextKey::from_rendered_wrapped_text(b"t", b"f", 0x1234, 0xAABBCCDD);
    assert_eq!(&w.as_bytes()[1..3], &[0x34, 0x12]);
    assert_eq!(&w.as_bytes()[3..7], &[0xDD, 0xCC, 0xBB, 0xAA]);
}

#[test]
fn different_fields_give_different_keys() {
    let a = FileOrRenderedTextKey::from_rendered_text(b"hello", b"f.ttf", 24);
    let b = FileOrRenderedTextKey::from_rendered_text(b"hello", b"f.ttf", 25);
    let c = FileOrRenderedTextKey::from_rendered_text(b"hellp", b"f.ttf", 24);
    let d = FileOrRenderedTextKey::from_rendered_text(b"hello", b"g.ttf", 24);
    assert!(a != b);
    assert!(a != c);
    assert!(a != d);
}

#[test]
fn into_bytes_matches_as_bytes() {
    let k = FileOrRenderedTextKey::from_path(b"some/image.png");
    let copy = FileOrRenderedTextKey::from_path(b"some/image.png");
    assert_eq!(k.as_bytes().to_vec(), copy.into_bytes());
}

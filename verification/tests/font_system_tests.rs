use std::cell::Cell;
use std::rc::Rc;

use chimeric_cache::font_system::FontSystem;

// a stand-in font object: the point size it was opened at
type Font = u16;

// a stand-in pixel buffer: which font and text produced it
type Pixels = (u16, Vec<u8>);

struct Counters {
    reads: Cell<u32>,
    opens: Cell<u32>,
}

impl Counters {
    fn new() -> Self {
        Counters { reads: Cell::new(0), opens: Cell::new(0) }
    }
}

fn render_once(
    fonts: &mut FontSystem<Font>,
    counters: &Counters,
    file: &[u8],
    size: u16,
    text: &[u8],
    wrap: Option<u32>,
) -> Result<Pixels, String> {
    fonts.render(
        &file.to_vec(),
        size,
        &text.to_vec(),
        wrap,
        || {
            counters.reads.set(counters.reads.get() + 1);
            Ok(b"fontfilebytes".to_vec())
        },
        |_bytes: Rc<Vec<u8>>, point_size: u16| {
            counters.opens.set(counters.opens.get() + 1);
            Ok(point_size)
        },
        |font: &Font, text: &Vec<u8>, _wrap: Option<u32>| Ok((*font, text.clone())),
    )
}

#[test]
fn shared_font_bytes_read_once() {
    // two renders of the same file at two point sizes read the file from
    // storage exactly once: the second reuses the shared bytes
    let mut fonts: FontSystem<Font> = FontSystem::new(4, 4);
    let c = Counters::new();
    let px = render_once(&mut fonts, &c, b"F.ttf", 10, b"hi", None).unwrap();
    assert_eq!(px, (10, b"hi".to_vec()));
    let px = render_once(&mut fonts, &c, b"F.ttf", 12, b"hi", None).unwrap();
    assert_eq!(px, (12, b"hi".to_vec()));
    assert_eq!(c.reads.get(), 1);
    assert_eq!(c.opens.get(), 2);
}

#[test]
fn point_size_eviction_keeps_shared_bytes() {
    // one font file, two point sizes kept: rendering at sizes 10, 12, 14
    // evicts the size-10 entry, keeps 12 and 14, and reads the file from
    // storage exactly once across all three calls
    let mut fonts: FontSystem<Font> = FontSystem::new(2, 1);
    let c = Counters::new();
    render_once(&mut fonts, &c, b"F", 10, b"t", None).unwrap();
    render_once(&mut fonts, &c, b"F", 12, b"t", None).unwrap();
    render_once(&mut fonts, &c, b"F", 14, b"t", None).unwrap();
    assert_eq!(c.reads.get(), 1);
    assert_eq!(c.opens.get(), 3);
    // sizes 12 and 14 are still cached: rendering them opens no new font
    render_once(&mut fonts, &c, b"F", 12, b"t", None).unwrap();
    render_once(&mut fonts, &c, b"F", 14, b"t", None).unwrap();
    assert_eq!(c.opens.get(), 3);
    // size 10 was evicted: rendering it again means a fresh open, but
    // still no fresh read of the file
    render_once(&mut fonts, &c, b"F", 10, b"t", None).unwrap();
    assert_eq!(c.opens.get(), 4);
    assert_eq!(c.reads.get(), 1);
}

#[test]
fn cached_font_is_not_reopened() {
    let mut fonts: FontSystem<Font> = FontSystem::new(4, 4);
    let c = Counters::new();
    render_once(&mut fonts, &c, b"F", 10, b"first", None).unwrap();
    render_once(&mut fonts, &c, b"F", 10, b"second", Some(128)).unwrap();
    assert_eq!(c.reads.get(), 1);
    assert_eq!(c.opens.get(), 1);
}

#[test]
fn evicting_a_file_drops_its_bytes_and_rereads() {
    // capacity of one font file: loading a second file evicts the first,
    // whose bytes must then be read again on the next use
    let mut fonts: FontSystem<Font> = FontSystem::new(2, 1);
    let c = Counters::new();
    render_once(&mut fonts, &c, b"A", 10, b"t", None).unwrap();
    render_once(&mut fonts, &c, b"B", 10, b"t", None).unwrap();
    assert_eq!(c.reads.get(), 2);
    render_once(&mut fonts, &c, b"A", 10, b"t", None).unwrap();
    assert_eq!(c.reads.get(), 3);
}

#[test]
fn read_failure_is_propagated_and_nothing_is_cached() {
    let mut fonts: FontSystem<Font> = FontSystem::new(4, 4);
    let r = fonts.render(
        &b"missing.ttf".to_vec(),
        10,
        &b"t".to_vec(),
        None,
        || Err("file unreadable".to_string()),
        |_bytes: Rc<Vec<u8>>, point_size: u16| Ok(point_size),
        |font: &Font, text: &Vec<u8>, _wrap: Option<u32>| Ok((*font, text.clone())),
    );
    assert_eq!(r.err(), Some("file unreadable".to_string()));
    // the file still has no cached entry, so a working read is used next
    assert!(fonts.needs_font_read(&b"missing.ttf".to_vec()));
}

#[test]
fn open_failure_is_propagated_and_no_size_is_cached() {
    let mut fonts: FontSystem<Font> = FontSystem::new(4, 4);
    let c = Counters::new();
    let r = fonts.render(
        &b"F".to_vec(),
        10,
        &b"t".to_vec(),
        None,
        || {
            c.reads.set(c.reads.get() + 1);
            Ok(b"bytes".to_vec())
        },
        |_bytes: Rc<Vec<u8>>, _point_size: u16| -> Result<Font, String> {
            Err("malformed font data".to_string())
        },
        |font: &Font, text: &Vec<u8>, _wrap: Option<u32>| Ok((*font, text.clone())),
    );
    assert_eq!(r.err(), Some("malformed font data".to_string()));
    // no font object went in: a later render opens afresh
    let r = render_once(&mut fonts, &c, b"F", 10, b"t", None);
    assert!(r.is_ok());
    assert_eq!(c.opens.get(), 1);
}

#[test]
fn rasterize_failure_keeps_the_font_cached() {
    let mut fonts: FontSystem<Font> = FontSystem::new(4, 4);
    let c = Counters::new();
    let r = fonts.render(
        &b"F".to_vec(),
        10,
        &b"t".to_vec(),
        None,
        || {
            c.reads.set(c.reads.get() + 1);
            Ok(b"bytes".to_vec())
        },
        |_bytes: Rc<Vec<u8>>, point_size: u16| {
            c.opens.set(c.opens.get() + 1);
            Ok(point_size)
        },
        |_font: &Font, _text: &Vec<u8>, _wrap: Option<u32>| -> Result<Pixels, String> {
            Err("invalid text encoding".to_string())
        },
    );
    assert_eq!(r.err(), Some("invalid text encoding".to_string()));
    // the opened font object stays cached: the retry opens nothing new
    render_once(&mut fonts, &c, b"F", 10, b"t", None).unwrap();
    assert_eq!(c.opens.get(), 1);
    assert_eq!(c.reads.get(), 1);
}

#[test]
fn needs_font_read_reports_the_cache_state() {
    let mut fonts: FontSystem<Font> = FontSystem::new(4, 4);
    let c = Counters::new();
    assert!(fonts.needs_font_read(&b"F".to_vec()));
    render_once(&mut fonts, &c, b"F", 10, b"t", None).unwrap();
    assert!(!fonts.needs_font_read(&b"F".to_vec()));
    assert!(fonts.needs_font_read(&b"G".to_vec()));
}

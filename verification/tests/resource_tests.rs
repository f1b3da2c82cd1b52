use std::cell::Cell;
use std::rc::Rc;

use chimeric_cache::audio_system::AudioSystem;
use chimeric_cache::font_system::FontSystem;
use chimeric_cache::render_system::RenderSystem;

type Font = u16;
type Pixels = (u16, Vec<u8>);
// a stand-in drawable handle: a numbered upload of a pixel buffer
type Texture = (u32, Pixels);
// a stand-in audio chunk
type Chunk = u64;

#[test]
fn texture_is_loaded_once_per_path() {
    let mut textures: RenderSystem<u32> = RenderSystem::new(4);
    let loads = Cell::new(0u32);
    let load = || {
        loads.set(loads.get() + 1);
        Ok(7u32)
    };
    assert_eq!(textures.texture(&b"img.png".to_vec(), load).copied(), Ok(7));
    assert_eq!(textures.texture(&b"img.png".to_vec(), load).copied(), Ok(7));
    assert_eq!(loads.get(), 1);
    assert_eq!(textures.texture(&b"other.png".to_vec(), load).copied(), Ok(7));
    assert_eq!(loads.get(), 2);
}

#[test]
fn failed_texture_load_caches_nothing() {
    let mut textures: RenderSystem<u32> = RenderSystem::new(4);
    let r = textures.texture(&b"img.png".to_vec(), || Err("malformed image data".to_string()));
    assert_eq!(r.err(), Some("malformed image data".to_string()));
    // the next attempt loads again
    let r = textures.texture(&b"img.png".to_vec(), || Ok(9u32));
    assert_eq!(r.copied(), Ok(9));
}

#[test]
fn rendered_text_is_cached_by_composite_key() {
    let mut textures: RenderSystem<Texture> = RenderSystem::new(8);
    let mut fonts: FontSystem<Font> = FontSystem::new(4, 4);
    let reads = Cell::new(0u32);
    let uploads = Cell::new(0u32);
    let mut show = |text: &[u8], size: u16, wrap: Option<u32>| -> Result<Texture, String> {
        textures
            .text(
                &mut fonts,
                &b"F.ttf".to_vec(),
                size,
                &text.to_vec(),
                wrap,
                || {
                    reads.set(reads.get() + 1);
                    Ok(b"bytes".to_vec())
                },
                |_bytes: Rc<Vec<u8>>, point_size: u16| Ok(point_size),
                |font: &Font, text: &Vec<u8>, _wrap: Option<u32>| Ok((*font, text.clone())),
                |px: Pixels| {
                    uploads.set(uploads.get() + 1);
                    Ok((uploads.get(), px))
                },
            )
            .cloned()
    };
    let first = show(b"hi", 16, None).unwrap();
    assert_eq!(first, (1, (16, b"hi".to_vec())));
    // the same request is a pure cache hit: nothing read, nothing uploaded
    let again = show(b"hi", 16, None).unwrap();
    assert_eq!(again, first);
    assert_eq!(uploads.get(), 1);
    // a wrapped request with the same fields is a different key
    let wrapped = show(b"hi", 16, Some(100)).unwrap();
    assert_eq!(wrapped, (2, (16, b"hi".to_vec())));
    // the font file was still read only once
    assert_eq!(reads.get(), 1);
}

#[test]
fn failed_upload_caches_no_texture() {
    let mut textures: RenderSystem<Texture> = RenderSystem::new(8);
    let mut fonts: FontSystem<Font> = FontSystem::new(4, 4);
    let r = textures.text(
        &mut fonts,
        &b"F.ttf".to_vec(),
        16,
        &b"hi".to_vec(),
        None,
        || Ok(b"bytes".to_vec()),
        |_bytes: Rc<Vec<u8>>, point_size: u16| Ok(point_size),
        |font: &Font, text: &Vec<u8>, _wrap: Option<u32>| Ok((*font, text.clone())),
        |_px: Pixels| -> Result<Texture, String> { Err("unsupported format".to_string()) },
    );
    assert_eq!(r.err(), Some("unsupported format".to_string()));
    // but the font object itself stayed cached in the font system
    assert!(!fonts.needs_font_read(&b"F.ttf".to_vec()));
}

#[test]
fn sound_is_decoded_once_and_played_each_time() {
    let mut sounds: AudioSystem<Chunk> = AudioSystem::new(4);
    let decodes = Cell::new(0u32);
    let plays = Cell::new(0u32);
    for _ in 0..3 {
        let r = sounds.play(
            &b"beep.ogg".to_vec(),
            || {
                decodes.set(decodes.get() + 1);
                Ok(42u64)
            },
            |chunk: &Chunk| {
                assert_eq!(*chunk, 42);
                plays.set(plays.get() + 1);
            },
        );
        assert!(r.is_ok());
    }
    assert_eq!(decodes.get(), 1);
    assert_eq!(plays.get(), 3);
}

#[test]
fn failed_decode_plays_nothing_and_caches_nothing() {
    let mut sounds: AudioSystem<Chunk> = AudioSystem::new(4);
    let plays = Cell::new(0u32);
    let r = sounds.play(
        &b"beep.ogg".to_vec(),
        || Err("malformed audio data".to_string()),
        |_chunk: &Chunk| {
            plays.set(plays.get() + 1);
        },
    );
    assert_eq!(r.err(), Some("malformed audio data".to_string()));
    assert_eq!(plays.get(), 0);
    // the next attempt decodes again
    let decodes = Cell::new(0u32);
    let r = sounds.play(
        &b"beep.ogg".to_vec(),
        || {
            decodes.set(decodes.get() + 1);
            Ok(7u64)
        },
        |chunk: &Chunk| {
            assert_eq!(*chunk, 7);
        },
    );
    assert!(r.is_ok());
    assert_eq!(decodes.get(), 1);
}

#[test]
fn sound_eviction_respects_recency() {
    let mut sounds: AudioSystem<Chunk> = AudioSystem::new(2);
    let decodes = Cell::new(0u32);
    let mut play = |path: &[u8]| {
        sounds
            .play(
                &path.to_vec(),
                || {
                    decodes.set(decodes.get() + 1);
                    Ok(0u64)
                },
                |_chunk: &Chunk| {},
            )
            .unwrap();
    };
    play(b"a");
    play(b"b");
    play(b"a");
    // "b" is now least recently used; "c" evicts it
    play(b"c");
    assert_eq!(decodes.get(), 3);
    play(b"a");
    assert_eq!(decodes.get(), 3);
    play(b"b");
    assert_eq!(decodes.get(), 4);
}

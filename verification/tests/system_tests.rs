use std::cell::Cell;
use std::rc::Rc;

use chimeric_cache::system::{ChimericSystem, ChimericSystemSettings};

type Font = u16;
type Pixels = (u16, Vec<u8>);
type Texture = u32;

fn settings() -> ChimericSystemSettings {
    ChimericSystemSettings {
        num_point_sizes_per_font: 2,
        num_fonts: 2,
        num_textures_per_window: 4,
    }
}

#[test]
fn zero_capacity_is_a_configuration_error() {
    let mut s = settings();
    s.num_fonts = 0;
    assert!(ChimericSystem::<Font, Texture>::new(s).is_err());
    let mut s = settings();
    s.num_point_sizes_per_font = 0;
    assert!(ChimericSystem::<Font, Texture>::new(s).is_err());
    let mut s = settings();
    s.num_textures_per_window = 0;
    assert!(ChimericSystem::<Font, Texture>::new(s).is_err());
    assert!(ChimericSystem::<Font, Texture>::new(settings()).is_ok());
}

#[test]
fn window_names_are_unique() {
    let mut sys = ChimericSystem::<Font, Texture>::new(settings()).unwrap();
    assert!(sys.add_window("main").is_ok());
    assert!(sys.add_window("main").is_err());
    assert!(sys.add_window("other").is_ok());
    assert!(sys.remove_window("main").is_ok());
    assert!(sys.remove_window("main").is_err());
    assert!(sys.add_window("main").is_ok());
}

#[test]
fn texture_requires_an_existing_window() {
    let mut sys = ChimericSystem::<Font, Texture>::new(settings()).unwrap();
    let r = sys.texture("nowhere", &b"img.png".to_vec(), || Ok(1u32));
    assert!(r.is_err());
}

#[test]
fn each_window_has_its_own_texture_cache() {
    let mut sys = ChimericSystem::<Font, Texture>::new(settings()).unwrap();
    sys.add_window("left").unwrap();
    sys.add_window("right").unwrap();
    let loads = Cell::new(0u32);
    let load = || {
        loads.set(loads.get() + 1);
        Ok(5u32)
    };
    assert_eq!(sys.texture("left", &b"img.png".to_vec(), load).copied(), Ok(5));
    assert_eq!(sys.texture("left", &b"img.png".to_vec(), load).copied(), Ok(5));
    assert_eq!(loads.get(), 1);
    // the other window's cache does not know the path yet
    assert_eq!(sys.texture("right", &b"img.png".to_vec(), load).copied(), Ok(5));
    assert_eq!(loads.get(), 2);
}

#[test]
fn text_shares_one_font_system_across_windows() {
    let mut sys = ChimericSystem::<Font, Texture>::new(settings()).unwrap();
    sys.add_window("left").unwrap();
    sys.add_window("right").unwrap();
    let reads = Cell::new(0u32);
    let uploads = Cell::new(0u32);
    for window in ["left", "right"] {
        let r = sys.text(
            window,
            &b"F.ttf".to_vec(),
            16,
            &b"hello".to_vec(),
            None,
            || {
                reads.set(reads.get() + 1);
                Ok(b"bytes".to_vec())
            },
            |_bytes: Rc<Vec<u8>>, point_size: u16| Ok(point_size),
            |font: &Font, text: &Vec<u8>, _wrap: Option<u32>| {
                Ok((*font, text.clone()))
            },
            |_px: Pixels| {
                uploads.set(uploads.get() + 1);
                Ok(uploads.get())
            },
        );
        assert!(r.is_ok());
    }
    // both windows uploaded their own texture, but the font file was read
    // from storage only once: the font system is shared
    assert_eq!(uploads.get(), 2);
    assert_eq!(reads.get(), 1);
}

#[test]
fn text_requires_an_existing_window() {
    let mut sys = ChimericSystem::<Font, Texture>::new(settings()).unwrap();
    let r = sys.text(
        "nowhere",
        &b"F.ttf".to_vec(),
        16,
        &b"hello".to_vec(),
        None,
        || Ok(b"bytes".to_vec()),
        |_bytes: Rc<Vec<u8>>, point_size: u16| Ok(point_size),
        |font: &Font, text: &Vec<u8>, _wrap: Option<u32>| Ok((*font, text.clone())),
        |_px: Pixels| Ok(1u32),
    );
    assert!(r.is_err());
}

#[test]
fn removing_a_window_drops_its_cache() {
    let mut sys = ChimericSystem::<Font, Texture>::new(settings()).unwrap();
    sys.add_window("main").unwrap();
    let loads = Cell::new(0u32);
    let load = || {
        loads.set(loads.get() + 1);
        Ok(5u32)
    };
    sys.texture("main", &b"img.png".to_vec(), load).unwrap();
    sys.remove_window("main").unwrap();
    sys.add_window("main").unwrap();
    // the recreated window starts with an empty cache
    sys.texture("main", &b"img.png".to_vec(), load).unwrap();
    assert_eq!(loads.get(), 2);
}

//! The orchestrator: one font system shared by all windows, and one
//! texture cache per window, looked up by window name. Each cache's
//! capacity comes from the settings, checked once at construction.
//!
//! The native windows, canvases and backend subsystems live outside this
//! crate; requests arrive here with the backend steps as closures, and
//! this layer routes them to the right caches.

use std::rc::Rc;

use vstd::prelude::*;

use crate::font_system::FontSystem;
use crate::render_system::RenderSystem;

verus! {

/// The fixed capacities of the caches: how many font files, point sizes
/// per font, and textures per window are kept.
#[derive(Debug, Clone, Copy)]
pub struct ChimericSystemSettings {
    /// How many point sizes are kept per font file.
    pub num_point_sizes_per_font: usize,
    /// How many font files are kept.
    pub num_fonts: usize,
    /// How many textures are kept per window.
    pub num_textures_per_window: usize,
}

impl ChimericSystemSettings {
    /// Every capacity must be at least one; a zero capacity is a
    /// configuration error, rejected at construction.
    pub open spec fn valid(&self) -> bool {
        &&& self.num_point_sizes_per_font >= 1
        &&& self.num_fonts >= 1
        &&& self.num_textures_per_window >= 1
    }
}

/// The resource caches of a whole application: fonts shared across
/// windows, textures per window.
pub struct ChimericSystem<F, T> {
    settings: ChimericSystemSettings,
    font_system: FontSystem<F>,
    windows: Vec<(String, RenderSystem<T>)>,
}

impl<F, T> ChimericSystem<F, T> {
    /// The per-window texture caches, keyed by window name, in insertion
    /// order.
    pub closed spec fn windows_view(&self) -> Seq<(Seq<char>, RenderSystem<T>)> {
        self.windows@.map_values(|w: (String, RenderSystem<T>)| (w.0@, w.1))
    }

    /// The shared font system.
    pub closed spec fn font_state(&self) -> FontSystem<F> {
        self.font_system
    }

    /// The settings the system was created with.
    pub closed spec fn spec_settings(&self) -> ChimericSystemSettings {
        self.settings
    }

    /// Is a window of this name present?
    pub open spec fn has_window(&self, name: Seq<char>) -> bool {
        exists|i: int|
            0 <= i < self.windows_view().len() && (#[trigger] self.windows_view()[i]).0 == name
    }

    /// The index of the window with this name (meaningful when
    /// `has_window` holds).
    pub open spec fn window_index(&self, name: Seq<char>) -> int {
        choose|i: int|
            0 <= i < self.windows_view().len() && (#[trigger] self.windows_view()[i]).0 == name
    }

    /// Internal consistency: valid settings, window names distinct, every
    /// texture cache and the font system well-formed and carrying the
    /// configured capacities.
    pub closed spec fn wf(&self) -> bool {
        &&& self.settings.valid()
        &&& self.font_system.wf()
        &&& self.font_system.files_bound() == self.settings.num_fonts as nat
        &&& self.font_system.sizes_bound() == self.settings.num_point_sizes_per_font as nat
        &&& forall|i: int, j: int|
            0 <= i < j < self.windows@.len() ==> self.windows@[i].0@ != self.windows@[j].0@
        &&& forall|i: int|
            0 <= i < self.windows@.len() ==> (#[trigger] self.windows@[i]).1.wf()
                && self.windows@[i].1.bound() == self.settings.num_textures_per_window as nat
    }

    /// Create the caches from the settings; a zero capacity anywhere is a
    /// configuration error, reported here and never recovered from.
    pub fn new(settings: ChimericSystemSettings) -> (r: Result<Self, String>)
        ensures
            r is Ok <==> settings.valid(),
            match r {
                Ok(s) => {
                    &&& s.wf()
                    &&& s.spec_settings() == settings
                    &&& s.windows_view().len() == 0
                    &&& s.font_state().catalog().len() == 0
                },
                Err(_) => true,
            },
    {
        if settings.num_point_sizes_per_font == 0 || settings.num_fonts == 0
            || settings.num_textures_per_window == 0 {
            return Err("configuration error: every cache capacity must be at least 1".to_owned());
        }
        Ok(
            Self {
                settings,
                font_system: FontSystem::new(settings.num_point_sizes_per_font, settings.num_fonts),
                windows: Vec::new(),
            },
        )
    }

    /// The index of the window with this name, if any.
    fn find_window(&self, window_name: &String) -> (r: Option<usize>)
        ensures
            match r {
                Some(i) => i < self.windows_view().len() && self.windows_view()[i as int].0
                    == window_name@,
                None => !self.has_window(window_name@),
            },
    {
        let mut i: usize = 0;
        while i < self.windows.len()
            invariant
                i <= self.windows@.len(),
                forall|j: int| 0 <= j < i ==> (#[trigger] self.windows@[j]).0@ != window_name@,
            decreases self.windows@.len() - i,
        {
            if self.windows[i].0 == *window_name {
                return Some(i);
            }
            i += 1;
        }
        proof {
            assert forall|j: int|
                0 <= j < self.windows_view().len() implies (#[trigger] self.windows_view()[j]).0
                != window_name@ by {
                assert(self.windows@[j].0@ != window_name@);
            }
        }
        None
    }

    /// Add a window to the application under a name. A name already in
    /// use is an error; otherwise the window gets a fresh texture cache
    /// with the configured capacity.
    pub fn add_window(&mut self, window_name: &str) -> (r: Result<(), String>)
        requires
            old(self).wf(),
        ensures
            final(self).wf(),
            final(self).spec_settings() == old(self).spec_settings(),
            *final(self) == *old(self) || final(self).font_state() == old(self).font_state(),
            match r {
                Ok(u) => {
                    &&& !old(self).has_window(window_name@)
                    &&& final(self).windows_view().len() == old(self).windows_view().len() + 1
                    &&& final(self).windows_view().last().0 == window_name@
                    &&& final(self).windows_view().last().1@.len() == 0
                    &&& final(self).windows_view().drop_last() == old(self).windows_view()
                    &&& final(self).font_state() == old(self).font_state()
                },
                Err(_) => old(self).has_window(window_name@) && *final(self) == *old(self),
            },
    {
        let name = window_name.to_owned();
        match self.find_window(&name) {
            Some(_) => Err("window can't be created because it already exists".to_owned()),
            None => {
                let sys = RenderSystem::new(self.settings.num_textures_per_window);
                self.windows.push((name, sys));
                proof {
                    assert(self.windows_view().drop_last() =~= old(self).windows_view());
                    assert forall|a: int, b: int|
                        0 <= a < b < self.windows@.len() implies self.windows@[a].0@
                        != self.windows@[b].0@ by {
                        if b == self.windows@.len() - 1 {
                            assert(self.windows@[a] == old(self).windows@[a]);
                            if self.windows@[a].0@ == window_name@ {
                                assert(old(self).windows_view()[a].0 == window_name@);
                                assert(old(self).has_window(window_name@));
                            }
                        } else {
                            assert(self.windows@[a] == old(self).windows@[a]);
                            assert(self.windows@[b] == old(self).windows@[b]);
                        }
                    }
                }
                Ok(())
            },
        }
    }

    /// Remove a window from the application by name; the name not being
    /// present is an error. The window's texture cache is dropped whole,
    /// before the caller tears the native window down.
    pub fn remove_window(&mut self, window_name: &str) -> (r: Result<(), String>)
        requires
            old(self).wf(),
        ensures
            final(self).wf(),
            final(self).spec_settings() == old(self).spec_settings(),
            final(self).font_state() == old(self).font_state(),
            match r {
                Ok(u) => {
                    &&& old(self).has_window(window_name@)
                    &&& final(self).windows_view() == old(self).windows_view().remove(
                        old(self).window_index(window_name@),
                    )
                },
                Err(_) => !old(self).has_window(window_name@) && *final(self) == *old(self),
            },
    {
        let name = window_name.to_owned();
        match self.find_window(&name) {
            None => Err("window can't be removed because it does not exist".to_owned()),
            Some(i) => {
                let _ = self.windows.remove(i);
                proof {
                    let ghost wv0 = old(self).windows_view();
                    assert(0 <= i < wv0.len() && wv0[i as int].0 == window_name@);
                    let io = old(self).window_index(window_name@);
                    assert(0 <= io < wv0.len() && wv0[io].0 == window_name@);
                    if io != i {
                        assert(old(self).windows@[io].0@ != old(self).windows@[i as int].0@);
                        assert(false);
                    }
                    old(self).windows@.remove_ensures(i as int);
                    assert(self.windows_view() =~= wv0.remove(i as int));
                }
                Ok(())
            },
        }
    }

    /// Load the texture from the file path if it is not in the named
    /// window's cache, and return it; the window not existing is an
    /// error that changes nothing.
    pub fn texture<Ld: FnOnce() -> Result<T, String>>(
        &mut self,
        window_name: &str,
        path: &Vec<u8>,
        load_texture: Ld,
    ) -> (r: Result<&T, String>)
        requires
            old(self).wf(),
            call_requires(load_texture, ()),
        ensures
            final(self).wf(),
            final(self).spec_settings() == old(self).spec_settings(),
            final(self).font_state() == old(self).font_state(),
            if old(self).has_window(window_name@) {
                ({
                    let i = old(self).window_index(window_name@);
                    &&& final(self).windows_view().len() == old(self).windows_view().len()
                    &&& (forall|j: int|
                        0 <= j < old(self).windows_view().len() && j != i
                            ==> #[trigger] final(self).windows_view()[j] == old(
                            self,
                        ).windows_view()[j])
                    &&& final(self).windows_view()[i].0 == window_name@
                    &&& old(self).windows_view()[i].1.texture_post(
                        final(self).windows_view()[i].1,
                        path@,
                        load_texture,
                        r,
                    )
                })
            } else {
                r is Err && *final(self) == *old(self)
            },
    {
        let name = window_name.to_owned();
        match self.find_window(&name) {
            None => Err("can't get texture; window does not exist".to_owned()),
            Some(i) => {
                proof {
                    let io = old(self).window_index(window_name@);
                    assert(0 <= io < old(self).windows_view().len()
                        && old(self).windows_view()[io].0 == window_name@);
                    if io != i {
                        assert(old(self).windows@[io].0@ != old(self).windows@[i as int].0@);
                        assert(false);
                    }
                }
                let entry = &mut self.windows[i];
                let out = entry.1.texture(path, load_texture);
                out
            },
        }
    }

    /// Create the texture for the rendered text if it is not in the named
    /// window's cache, loading the font as needed through the shared font
    /// system, and return it; the window not existing is an error that
    /// changes nothing.
    pub fn text<Px, Rd: FnOnce() -> Result<Vec<u8>, String>, Op: FnOnce(
        Rc<Vec<u8>>,
        u16,
    ) -> Result<F, String>, Ra: FnOnce(&F, &Vec<u8>, Option<u32>) -> Result<Px, String>, Up: FnOnce(
        Px,
    ) -> Result<T, String>>(
        &mut self,
        window_name: &str,
        font_file: &Vec<u8>,
        point_size: u16,
        text: &Vec<u8>,
        wrap_width: Option<u32>,
        read_file: Rd,
        open_font: Op,
        rasterize: Ra,
        upload: Up,
    ) -> (r: Result<&T, String>)
        requires
            old(self).wf(),
            call_requires(read_file, ()),
            forall|b: Rc<Vec<u8>>| call_requires(open_font, (b, point_size)),
            forall|f: &F| call_requires(rasterize, (f, text, wrap_width)),
            forall|px: Px| call_requires(upload, (px,)),
        ensures
            final(self).wf(),
            final(self).spec_settings() == old(self).spec_settings(),
            if old(self).has_window(window_name@) {
                ({
                    let i = old(self).window_index(window_name@);
                    &&& final(self).windows_view().len() == old(self).windows_view().len()
                    &&& (forall|j: int|
                        0 <= j < old(self).windows_view().len() && j != i
                            ==> #[trigger] final(self).windows_view()[j] == old(
                            self,
                        ).windows_view()[j])
                    &&& final(self).windows_view()[i].0 == window_name@
                    &&& old(self).windows_view()[i].1.text_post(
                        final(self).windows_view()[i].1,
                        old(self).font_state(),
                        final(self).font_state(),
                        font_file@,
                        point_size,
                        text,
                        wrap_width,
                        read_file,
                        open_font,
                        rasterize,
                        upload,
                        r,
                    )
                })
            } else {
                r is Err && *final(self) == *old(self)
            },
    {
        let name = window_name.to_owned();
        match self.find_window(&name) {
            None => Err("can't get texture; window does not exist".to_owned()),
            Some(i) => {
                proof {
                    let io = old(self).window_index(window_name@);
                    assert(0 <= io < old(self).windows_view().len()
                        && old(self).windows_view()[io].0 == window_name@);
                    if io != i {
                        assert(old(self).windows@[io].0@ != old(self).windows@[i as int].0@);
                        assert(false);
                    }
                }
                let entry = &mut self.windows[i];
                let out = entry.1.text(
                    &mut self.font_system,
                    font_file,
                    point_size,
                    text,
                    wrap_width,
                    read_file,
                    open_font,
                    rasterize,
                    upload,
                );
                out
            },
        }
    }
}

} // verus!

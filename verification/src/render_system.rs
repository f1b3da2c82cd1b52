//! The texture cache for one rendering context: a single bounded cache
//! keyed by composite keys, holding drawable handles. Loading an image,
//! rasterizing text and uploading a pixel buffer are the backend's work
//! and come in as closures; the cache decides when each one runs.
//!
//! The handles stored here are only valid while the context that made
//! them lives: the caller keeps this cache inside its context wrapper and
//! tears it down first.

use std::rc::Rc;

use vstd::prelude::*;

use crate::bounded_cache::BoundedCache;
use crate::cache_key::{
    path_key, rendered_text_key, rendered_wrapped_text_key, FileOrRenderedTextKey,
};
use crate::cache_model::{contains_key, model_insert, model_promote, value_of_key};
use crate::font_system::FontSystem;

verus! {

/// The composite key under which a text request is cached: the wrapped
/// variant when a wrap width is given, the plain one otherwise.
pub open spec fn text_request_key(
    text: Seq<u8>,
    font_file: Seq<u8>,
    point_size: u16,
    wrap_width: Option<u32>,
) -> Seq<u8> {
    match wrap_width {
        Some(w) => rendered_wrapped_text_key(text, font_file, point_size, w),
        None => rendered_text_key(text, font_file, point_size),
    }
}

/// Manages loading and unloading of textures, and rendering text, for one
/// owning rendering context.
pub struct RenderSystem<T> {
    textures: BoundedCache<T>,
}

impl<T> RenderSystem<T> {
    /// The cached drawables: composite key bytes paired with the handle,
    /// most recently used first.
    pub closed spec fn view(&self) -> Seq<(Seq<u8>, T)> {
        self.textures@
    }

    /// The fixed capacity.
    pub closed spec fn bound(&self) -> nat {
        self.textures.bound()
    }

    /// Internal consistency.
    pub closed spec fn wf(&self) -> bool {
        self.textures.wf()
    }

    /// An empty texture cache holding at most `num_loaded_textures`
    /// entries.
    pub fn new(num_loaded_textures: usize) -> (r: Self)
        requires
            1 <= num_loaded_textures,
        ensures
            r.wf(),
            r@ == Seq::<(Seq<u8>, T)>::empty(),
            r.bound() == num_loaded_textures as nat,
    {
        Self { textures: BoundedCache::new(num_loaded_textures) }
    }

    /// What `texture` guarantees: a hit returns the cached handle and
    /// promotes it, a miss caches what `load_texture` produced, and a
    /// failed load leaves the cache unchanged with the key still absent.
    pub open spec fn texture_post<'a, Ld: FnOnce() -> Result<T, String>>(
        self,
        post: Self,
        path: Seq<u8>,
        load_texture: Ld,
        r: Result<&'a T, String>,
    ) -> bool {
        &&& post.wf()
        &&& post.bound() == self.bound()
        &&& match r {
            Ok(t) => {
                if contains_key(self@, path_key(path)) {
                    post@ == model_promote(self@, path_key(path)) && *t == value_of_key(
                        self@,
                        path_key(path),
                    )
                } else {
                    call_ensures(load_texture, (), Ok(*t)) && post@ == model_insert(
                        self@,
                        self.bound(),
                        path_key(path),
                        *t,
                    )
                }
            },
            Err(e) => !contains_key(self@, path_key(path)) && post@ == self@ && call_ensures(
                load_texture,
                (),
                Err(e),
            ),
        }
    }

    /// Load the texture from the file path if it is not in the cache and
    /// return it; `load_texture` decodes and uploads the image and runs
    /// only on a miss.
    pub fn texture<Ld: FnOnce() -> Result<T, String>>(
        &mut self,
        path: &Vec<u8>,
        load_texture: Ld,
    ) -> (r: Result<&T, String>)
        requires
            old(self).wf(),
            call_requires(load_texture, ()),
        ensures
            old(self).texture_post(*final(self), path@, load_texture, r),
    {
        let key = FileOrRenderedTextKey::from_path(path.as_slice());
        let kb = key.into_bytes();
        self.textures.try_get_or_insert(&kb, load_texture)
    }

    /// What `text` guarantees: a hit returns the cached handle, promotes
    /// it and leaves the font system untouched; a miss renders through
    /// the font system, uploads, and caches the handle; a failure leaves
    /// this cache unchanged with the key still absent.
    pub open spec fn text_post<'a, F, Px, Rd: FnOnce() -> Result<Vec<u8>, String>, Op: FnOnce(
        Rc<Vec<u8>>,
        u16,
    ) -> Result<F, String>, Ra: FnOnce(&F, &Vec<u8>, Option<u32>) -> Result<Px, String>, Up: FnOnce(
        Px,
    ) -> Result<T, String>>(
        self,
        post: Self,
        fs_pre: FontSystem<F>,
        fs_post: FontSystem<F>,
        font_file: Seq<u8>,
        point_size: u16,
        text: &Vec<u8>,
        wrap_width: Option<u32>,
        read_file: Rd,
        open_font: Op,
        rasterize: Ra,
        upload: Up,
        r: Result<&'a T, String>,
    ) -> bool {
        let key = text_request_key(text@, font_file, point_size, wrap_width);
        &&& post.wf()
        &&& post.bound() == self.bound()
        &&& fs_post.wf()
        &&& fs_post.files_bound() == fs_pre.files_bound()
        &&& fs_post.sizes_bound() == fs_pre.sizes_bound()
        &&& match r {
            Ok(t) => {
                if contains_key(self@, key) {
                    // a hit: the cached handle comes back, only recency
                    // changes, and the font system is not touched
                    &&& post@ == model_promote(self@, key)
                    &&& *t == value_of_key(self@, key)
                    &&& fs_post == fs_pre
                } else {
                    // a miss: the font system rendered a pixel buffer,
                    // upload turned it into the handle, and the handle
                    // went in under the key
                    &&& (exists|px: Px|
                        fs_pre.render_ok_post(
                            fs_post,
                            font_file,
                            point_size,
                            text,
                            wrap_width,
                            read_file,
                            open_font,
                            rasterize,
                            px,
                        ) && #[trigger] call_ensures(upload, (px,), Ok(*t)))
                    &&& post@ == model_insert(self@, self.bound(), key, *t)
                }
            },
            Err(e) => {
                // no entry is inserted on failure, whether the render or
                // the upload failed
                &&& !contains_key(self@, key)
                &&& post@ == self@
                &&& ({
                    ||| fs_pre.render_err_post(
                        fs_post,
                        font_file,
                        point_size,
                        text,
                        wrap_width,
                        read_file,
                        open_font,
                        rasterize,
                        e,
                    )
                    ||| (exists|px: Px|
                        fs_pre.render_ok_post(
                            fs_post,
                            font_file,
                            point_size,
                            text,
                            wrap_width,
                            read_file,
                            open_font,
                            rasterize,
                            px,
                        ) && #[trigger] call_ensures(upload, (px,), Err(e)))
                })
            },
        }
    }

    /// Create the texture for the rendered text if it is not in the
    /// cache, loading the font as needed, and return it. On a miss the
    /// font system renders a pixel buffer (see `FontSystem::render` for
    /// the three closures it takes) and `upload` turns it into a drawable
    /// handle; a failure anywhere leaves this cache unchanged.
    pub fn text<F, Px, Rd: FnOnce() -> Result<Vec<u8>, String>, Op: FnOnce(
        Rc<Vec<u8>>,
        u16,
    ) -> Result<F, String>, Ra: FnOnce(&F, &Vec<u8>, Option<u32>) -> Result<Px, String>, Up: FnOnce(
        Px,
    ) -> Result<T, String>>(
        &mut self,
        font_system: &mut FontSystem<F>,
        font_file: &Vec<u8>,
        point_size: u16,
        text: &Vec<u8>,
        wrap_width: Option<u32>,
        read_file: Rd,
        open_font: Op,
        rasterize: Ra,
        upload: Up,
    ) -> (r: Result<&T, String>)
        requires
            old(self).wf(),
            old(font_system).wf(),
            call_requires(read_file, ()),
            forall|b: Rc<Vec<u8>>| call_requires(open_font, (b, point_size)),
            forall|f: &F| call_requires(rasterize, (f, text, wrap_width)),
            forall|px: Px| call_requires(upload, (px,)),
        ensures
            old(self).text_post(
                *final(self),
                *old(font_system),
                *final(font_system),
                font_file@,
                point_size,
                text,
                wrap_width,
                read_file,
                open_font,
                rasterize,
                upload,
                r,
            ),
    {
        let key = match wrap_width {
            Some(w) => FileOrRenderedTextKey::from_rendered_wrapped_text(
                text.as_slice(),
                font_file.as_slice(),
                point_size,
                w,
            ),
            None => FileOrRenderedTextKey::from_rendered_text(
                text.as_slice(),
                font_file.as_slice(),
                point_size,
            ),
        };
        let kb = key.into_bytes();
        if self.textures.contains(&kb) {
            let got = self.textures.get(&kb);
            return Ok(got.unwrap());
        }
        let rendered = font_system.render(
            font_file,
            point_size,
            text,
            wrap_width,
            read_file,
            open_font,
            rasterize,
        );
        match rendered {
            Err(e) => Err(e),
            Ok(px) => {
                let uploaded = upload(px);
                match uploaded {
                    Err(e) => Err(e),
                    Ok(tex) => {
                        let _ = self.textures.insert(kb, tex);
                        let out = self.textures.peek_most_recent();
                        Ok(out.unwrap())
                    },
                }
            },
        }
    }
}

} // verus!

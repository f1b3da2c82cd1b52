//! The two-level font object cache: an outer bounded cache keyed by font
//! file path holding, per file, an inner bounded cache keyed by point
//! size. Every font object derived from one file shares a single
//! in-memory copy of the file's bytes; evicting one point size never
//! duplicates or drops the bytes that its siblings still use.
//!
//! Reading the file, opening a font at a size, and rasterizing text are
//! the backend's work and come in as closures.

use std::rc::Rc;

use vstd::prelude::*;

use crate::bounded_cache::BoundedCache;
use crate::cache_key::u16_le_bytes;
use crate::cache_model::{
    contains_key, distinct_keys, entry_in, index_of_key, lemma_index_of_key_unique,
    lemma_model_insert_frame, lemma_remove_then_insert, model_insert, model_promote, value_of_key,
};

verus! {

/// Relies on `Rc::clone` (std): a new handle to the same shared
/// allocation, seeing the same value.
#[verifier::external_body]
fn rc_clone<T>(v: &Rc<T>) -> (r: Rc<T>)
    ensures
        r == *v,
{
    v.clone()
}

/// The two-byte cache key an inner cache files a point size under.
fn point_size_key(point_size: u16) -> (r: Vec<u8>)
    ensures
        r@ == u16_le_bytes(point_size),
{
    let mut data: Vec<u8> = Vec::new();
    data.push((point_size & 0xff) as u8);
    data.push(((point_size >> 8) & 0xff) as u8);
    proof {
        assert(data@ =~= u16_le_bytes(point_size));
    }
    data
}

/// One cached font object together with the shared handle to its font
/// file's bytes: the font must never outlive the buffer it was parsed
/// from, so the two travel as one cache entry.
pub struct FontEntry<F> {
    /// The font file's entire contents, shared by every point-size
    /// variant of the same file.
    pub bytes: Rc<Vec<u8>>,
    /// The opened font object for one specific point size.
    pub font: F,
}

/// The two-level font object cache.
pub struct FontSystem<F> {
    point_sizes_per_font: usize,
    fonts: BoundedCache<BoundedCache<FontEntry<F>>>,
}

impl<F> FontSystem<F> {
    /// The outer cache's contents: font file path bytes paired with that
    /// file's inner point-size cache, most recently used file first.
    pub closed spec fn catalog(&self) -> Seq<(Seq<u8>, BoundedCache<FontEntry<F>>)> {
        self.fonts@
    }

    /// The maximum number of font files kept.
    pub closed spec fn files_bound(&self) -> nat {
        self.fonts.bound()
    }

    /// The maximum number of point sizes kept per font file.
    pub closed spec fn sizes_bound(&self) -> nat {
        self.point_sizes_per_font as nat
    }

    /// The contents of the inner cache for one font file; empty if the
    /// file has no entry.
    pub open spec fn sizes_of(&self, font_file: Seq<u8>) -> Seq<(Seq<u8>, FontEntry<F>)> {
        if contains_key(self.catalog(), font_file) {
            value_of_key(self.catalog(), font_file)@
        } else {
            Seq::empty()
        }
    }

    /// Would rendering with this font file have to read it from storage?
    /// Only when the file has no inner cache entry yet: otherwise the
    /// bytes are taken from an entry that already holds them.
    pub open spec fn spec_needs_read(&self, font_file: Seq<u8>) -> bool {
        self.sizes_of(font_file).len() == 0
    }

    /// What the structure asks of each inner cache: well-formed, carrying
    /// the configured per-file capacity, and all entries holding the same
    /// font file bytes.
    pub open spec fn inner_ok(&self, inner: BoundedCache<FontEntry<F>>) -> bool {
        &&& inner.wf()
        &&& inner.bound() == self.sizes_bound()
        &&& forall|j: int, l: int|
            0 <= j < inner@.len() && 0 <= l < inner@.len() ==> inner@[j].1.bytes@
                == inner@[l].1.bytes@
    }

    /// Internal consistency: both cache levels are well-formed, inner
    /// caches all carry the configured capacity, and all entries of one
    /// file hold the same bytes.
    pub closed spec fn wf(&self) -> bool {
        &&& self.fonts.wf()
        &&& self.point_sizes_per_font >= 1
        &&& forall|i: int|
            0 <= i < self.fonts@.len() ==> self.inner_ok((#[trigger] self.fonts@[i]).1)
    }

    /// Every pair of font entries cached for the same font file holds
    /// the same font file bytes: the file is shared, never duplicated.
    pub proof fn lemma_shared_font_bytes(&self, font_file: Seq<u8>)
        requires
            self.wf(),
        ensures
            forall|j: int, l: int|
                0 <= j < self.sizes_of(font_file).len() && 0 <= l < self.sizes_of(
                    font_file,
                ).len() ==> self.sizes_of(font_file)[j].1.bytes@ == self.sizes_of(
                    font_file,
                )[l].1.bytes@,
    {
        if contains_key(self.catalog(), font_file) {
            let i = index_of_key(self.catalog(), font_file);
            assert(0 <= i < self.catalog().len() && self.catalog()[i].0 == font_file);
            assert(self.inner_ok(self.fonts@[i].1));
            assert(self.sizes_of(font_file) == self.fonts@[i].1@);
        }
    }

    /// An empty font cache keeping at most `min_loaded_fonts` files and
    /// `num_point_sizes_per_font` sizes per file.
    pub fn new(num_point_sizes_per_font: usize, min_loaded_fonts: usize) -> (r: Self)
        requires
            1 <= num_point_sizes_per_font,
            1 <= min_loaded_fonts,
        ensures
            r.wf(),
            r.catalog() == Seq::<(Seq<u8>, BoundedCache<FontEntry<F>>)>::empty(),
            r.files_bound() == min_loaded_fonts as nat,
            r.sizes_bound() == num_point_sizes_per_font as nat,
    {
        Self {
            point_sizes_per_font: num_point_sizes_per_font,
            fonts: BoundedCache::new(min_loaded_fonts),
        }
    }

    /// Whether rendering with this font file would have to read it from
    /// storage first.
    pub fn needs_font_read(&self, font_file: &Vec<u8>) -> (r: bool)
        requires
            self.wf(),
        ensures
            r == self.spec_needs_read(font_file@),
    {
        proof {
            if contains_key(self.catalog(), font_file@) {
                let i = index_of_key(self.catalog(), font_file@);
                assert(0 <= i < self.catalog().len() && self.catalog()[i].0 == font_file@);
                assert(self.inner_ok(self.fonts@[i].1));
            }
        }
        match self.fonts.peek_by_key(font_file) {
            None => true,
            Some(inner) => inner.len() == 0,
        }
    }

    /// After the file's inner cache went back in front of the outer
    /// cache, the whole structure is well-formed again, provided the
    /// outer cache is, the old entries were, and the one just inserted
    /// is.
    proof fn lemma_wf_after_put(
        &self,
        cat0: Seq<(Seq<u8>, BoundedCache<FontEntry<F>>)>,
        fb: nat,
        file: Seq<u8>,
    )
        requires
            fb >= 1,
            distinct_keys(cat0),
            forall|i: int| 0 <= i < cat0.len() ==> self.inner_ok((#[trigger] cat0[i]).1),
            self.fonts.wf(),
            self.point_sizes_per_font >= 1,
            self.fonts@.len() > 0,
            self.fonts@ == model_insert(cat0, fb, file, self.fonts@.first().1),
            self.inner_ok(self.fonts@.first().1),
        ensures
            self.wf(),
            self.sizes_of(file) == self.fonts@.first().1@,
    {
        lemma_model_insert_frame(cat0, fb, file, self.fonts@.first().1);
        assert forall|i: int| 0 <= i < self.fonts@.len() implies self.inner_ok(
            (#[trigger] self.fonts@[i]).1,
        ) by {
            if i > 0 {
                assert(entry_in(cat0, self.fonts@[i]));
                let u = choose|u: int| 0 <= u < cat0.len() && self.fonts@[i] == #[trigger] cat0[u];
                assert(self.inner_ok(cat0[u].1));
            }
        }
        assert(contains_key(self.fonts@, file));
        assert(value_of_key(self.fonts@, file) == self.fonts@.first().1);
    }

    /// What a successful render guarantees: the requested font object is
    /// cached, the pixel buffer came from rasterizing exactly it, an
    /// already-open font was reused rather than reopened, and the file
    /// bytes were shared from cache when possible and read at most once
    /// otherwise.
    pub open spec fn render_ok_post<R, Rd: FnOnce() -> Result<Vec<u8>, String>, Op: FnOnce(
        Rc<Vec<u8>>,
        u16,
    ) -> Result<F, String>, Ra: FnOnce(&F, &Vec<u8>, Option<u32>) -> Result<R, String>>(
        self,
        post: Self,
        font_file: Seq<u8>,
        point_size: u16,
        text: &Vec<u8>,
        wrap_width: Option<u32>,
        read_file: Rd,
        open_font: Op,
        rasterize: Ra,
        px: R,
    ) -> bool {
        let sizes = post.sizes_of(font_file);
        let psk = u16_le_bytes(point_size);
        let fe = value_of_key(sizes, psk);
        // the requested font object is now cached, and the pixel buffer
        // came from rasterizing exactly it
        &&& contains_key(sizes, psk)
        &&& !post.spec_needs_read(font_file)
        &&& (exists|f: &F|
            *f == fe.font && #[trigger] call_ensures(rasterize, (f, text, wrap_width), Ok(px)))
        // an already-open font is reused, not reopened
        &&& (contains_key(self.sizes_of(font_file), psk) ==> fe == value_of_key(
            self.sizes_of(font_file),
            psk,
        ))
        // a file with cached entries is not read again: the new entry
        // shares the bytes the existing entries hold
        &&& (self.sizes_of(font_file).len() > 0 ==> fe.bytes@ == self.sizes_of(
            font_file,
        ).first().1.bytes@)
        // otherwise the bytes came from one read of the file
        &&& (self.sizes_of(font_file).len() == 0 ==> exists|bv: Vec<u8>|
            #[trigger] call_ensures(read_file, (), Ok(bv)) && bv@ == fe.bytes@)
        // a font not cached before was opened from those bytes
        &&& (!contains_key(self.sizes_of(font_file), psk) ==> exists|b: Rc<Vec<u8>>|
            b@ == fe.bytes@ && #[trigger] call_ensures(open_font, (b, point_size), Ok(fe.font)))
    }

    /// What a failed render guarantees: the error came from one of the
    /// three backend steps, and the caches hold no half-made entry — a
    /// failed read or open leaves the sizes exactly as they were, while a
    /// failed rasterization only means the font object itself stays
    /// cached.
    pub open spec fn render_err_post<R, Rd: FnOnce() -> Result<Vec<u8>, String>, Op: FnOnce(
        Rc<Vec<u8>>,
        u16,
    ) -> Result<F, String>, Ra: FnOnce(&F, &Vec<u8>, Option<u32>) -> Result<R, String>>(
        self,
        post: Self,
        font_file: Seq<u8>,
        point_size: u16,
        text: &Vec<u8>,
        wrap_width: Option<u32>,
        read_file: Rd,
        open_font: Op,
        rasterize: Ra,
        e: String,
    ) -> bool {
        let sizes = post.sizes_of(font_file);
        let psk = u16_le_bytes(point_size);
        // reading the file failed, and nothing was cached for it before
        // or after
        ||| (call_ensures(read_file, (), Err(e)) && sizes.len() == 0 && self.sizes_of(
            font_file,
        ).len() == 0)
        // opening the font failed: the error passes through and no entry
        // for this size is left behind
        ||| ((exists|b: Rc<Vec<u8>>| #[trigger] call_ensures(open_font, (b, point_size), Err(e)))
            && sizes == self.sizes_of(font_file) && !contains_key(sizes, psk))
        // rasterization failed: the font object stays cached
        ||| ((exists|f: &F| #[trigger] call_ensures(rasterize, (f, text, wrap_width), Err(e)))
            && contains_key(sizes, psk))
    }

    /// Render the text with the given font file at the given point size,
    /// loading the font file and/or opening the font object if needed and
    /// not cached. `read_file` reads the font file's bytes from storage,
    /// `open_font` opens a font object from shared bytes at a point size,
    /// and `rasterize` turns an opened font and the text into a pixel
    /// buffer; each is called only when the caches cannot answer, and a
    /// failure of any of them leaves no half-made entry behind.
    #[verifier::rlimit(100)]
    pub fn render<R, Rd: FnOnce() -> Result<Vec<u8>, String>, Op: FnOnce(
        Rc<Vec<u8>>,
        u16,
    ) -> Result<F, String>, Ra: FnOnce(&F, &Vec<u8>, Option<u32>) -> Result<R, String>>(
        &mut self,
        font_file: &Vec<u8>,
        point_size: u16,
        text: &Vec<u8>,
        wrap_width: Option<u32>,
        read_file: Rd,
        open_font: Op,
        rasterize: Ra,
    ) -> (r: Result<R, String>)
        requires
            old(self).wf(),
            call_requires(read_file, ()),
            forall|b: Rc<Vec<u8>>| call_requires(open_font, (b, point_size)),
            forall|f: &F| call_requires(rasterize, (f, text, wrap_width)),
        ensures
            final(self).wf(),
            final(self).files_bound() == old(self).files_bound(),
            final(self).sizes_bound() == old(self).sizes_bound(),
            final(self).catalog().len() > 0,
            final(self).catalog().first().0 == font_file@,
            final(self).catalog() == model_insert(
                old(self).catalog(),
                old(self).files_bound(),
                font_file@,
                final(self).catalog().first().1,
            ),
            match r {
                Ok(px) => old(self).render_ok_post(
                    *final(self),
                    font_file@,
                    point_size,
                    text,
                    wrap_width,
                    read_file,
                    open_font,
                    rasterize,
                    px,
                ),
                Err(e) => old(self).render_err_post(
                    *final(self),
                    font_file@,
                    point_size,
                    text,
                    wrap_width,
                    read_file,
                    open_font,
                    rasterize,
                    e,
                ),
            },
    {
        let ghost cat0 = self.fonts@;
        let ghost fb = self.fonts.bound();
        proof {
            self.fonts.lemma_distinct();
        }
        // take the file's inner cache out, or start an empty one
        let removed = self.fonts.remove(font_file);
        let mut inner: BoundedCache<FontEntry<F>> = match removed {
            Some(c) => c,
            None => BoundedCache::new(self.point_sizes_per_font),
        };
        let ghost inner0 = inner@;
        proof {
            inner.lemma_distinct();
            if contains_key(cat0, font_file@) {
                let io = index_of_key(cat0, font_file@);
                assert(0 <= io < cat0.len() && cat0[io].0 == font_file@);
                assert(old(self).inner_ok(cat0[io].1));
            }
            assert(inner0 == old(self).sizes_of(font_file@));
            assert(inner.wf() && inner.bound() == self.point_sizes_per_font as nat);
            assert(forall|j: int, l: int|
                0 <= j < inner0.len() && 0 <= l < inner0.len() ==> inner0[j].1.bytes@
                    == inner0[l].1.bytes@);
        }
        // obtain the shared file bytes: reuse them from any cached entry,
        // else read the file from storage
        let peeked = inner.peek_most_recent();
        let bytes_rc: Rc<Vec<u8>>;
        match peeked {
            Some(entry) => {
                bytes_rc = rc_clone(&entry.bytes);
            },
            None => {
                let read_result = read_file();
                match read_result {
                    Ok(bv) => {
                        bytes_rc = Rc::new(bv);
                    },
                    Err(e) => {
                        // put the untouched inner cache back before failing
                        proof {
                            lemma_remove_then_insert(cat0, fb, font_file@, inner);
                        }
                        let _ = self.fonts.insert(font_file.clone(), inner);
                        proof {
                            self.lemma_wf_after_put(cat0, fb, font_file@);
                        }
                        return Err(e);
                    },
                }
            },
        }
        proof {
            assert(inner0.len() > 0 ==> bytes_rc@ == inner0.first().1.bytes@);
        }
        // open the font object at this point size if it is not cached
        let psk = point_size_key(point_size);
        let bytes_for_entry = rc_clone(&bytes_rc);
        let compute = move || -> (res: Result<FontEntry<F>, String>)
            ensures
                (match res {
                    Ok(fe) => call_ensures(open_font, (bytes_rc, point_size), Ok(fe.font))
                        && fe.bytes == bytes_for_entry,
                    Err(e) => call_ensures(open_font, (bytes_rc, point_size), Err(e)),
                }),
            {
                let opened = open_font(bytes_rc, point_size);
                match opened {
                    Ok(f) => Ok(FontEntry { bytes: bytes_for_entry, font: f }),
                    Err(e) => Err(e),
                }
            };
        let got = inner.try_get_or_insert(&psk, compute);
        // rasterize with the cached font object
        let result: Result<R, String>;
        let ghost got_entry: FontEntry<F>;
        match got {
            Ok(fe) => {
                proof {
                    got_entry = *fe;
                }
                result = rasterize(&fe.font, text, wrap_width);
            },
            Err(e) => {
                result = Err(e);
            },
        }
        // put the inner cache back, promoting this file to most recent
        let ghost inner1 = inner@;
        proof {
            // the inner cache still shares one byte buffer among all its
            // entries
            if contains_key(inner0, u16_le_bytes(point_size)) {
                assert(inner1 == model_promote(inner0, u16_le_bytes(point_size)));
                let io = index_of_key(inner0, u16_le_bytes(point_size));
                assert(0 <= io < inner0.len() && inner0[io].0 == u16_le_bytes(point_size));
                inner0.remove_ensures(io);
                assert forall|t: int| 0 <= t < inner1.len() implies entry_in(
                    inner0,
                    #[trigger] inner1[t],
                ) by {
                    if t == 0 {
                        assert(0 <= io < inner0.len() && inner1[0] == inner0[io]);
                    } else if t - 1 < io {
                        assert(0 <= t - 1 < inner0.len() && inner1[t] == inner0[t - 1]);
                    } else {
                        assert(0 <= t < inner0.len() && inner1[t] == inner0[t]);
                    }
                }
            } else if got is Ok {
                assert(inner1 == model_insert(
                    inner0,
                    self.point_sizes_per_font as nat,
                    u16_le_bytes(point_size),
                    got_entry,
                ));
                lemma_model_insert_frame(
                    inner0,
                    self.point_sizes_per_font as nat,
                    u16_le_bytes(point_size),
                    got_entry,
                );
            }
            assert forall|j: int, l: int|
                0 <= j < inner1.len() && 0 <= l < inner1.len() implies inner1[j].1.bytes@
                == inner1[l].1.bytes@ by {
                if contains_key(inner0, u16_le_bytes(point_size)) || got is Err {
                    let ju = choose|u: int| 0 <= u < inner0.len() && inner1[j] == #[trigger] inner0[u];
                    let lu = choose|u: int| 0 <= u < inner0.len() && inner1[l] == #[trigger] inner0[u];
                    assert(entry_in(inner0, inner1[j]) && entry_in(inner0, inner1[l]));
                } else {
                    // a fresh entry went in front; it shares the bytes the
                    // older entries hold
                    assert(got_entry.bytes@ == bytes_rc@);
                    if j > 0 {
                        assert(entry_in(inner0, inner1[j]));
                        let u = choose|u: int| 0 <= u < inner0.len() && inner1[j] == #[trigger] inner0[u];
                        assert(inner1[j].1.bytes@ == inner0.first().1.bytes@);
                    }
                    if l > 0 {
                        assert(entry_in(inner0, inner1[l]));
                        let u = choose|u: int| 0 <= u < inner0.len() && inner1[l] == #[trigger] inner0[u];
                        assert(inner1[l].1.bytes@ == inner0.first().1.bytes@);
                    }
                }
            }
            lemma_remove_then_insert(cat0, fb, font_file@, inner);
        }
        let _ = self.fonts.insert(font_file.clone(), inner);
        proof {
            self.lemma_wf_after_put(cat0, fb, font_file@);
            let sizes = self.sizes_of(font_file@);
            assert(sizes == inner1);
            let pskv = u16_le_bytes(point_size);
            if got is Ok {
                inner.lemma_distinct();
                if contains_key(inner0, pskv) {
                    let io = index_of_key(inner0, pskv);
                    assert(0 <= io < inner0.len() && inner0[io].0 == pskv);
                    assert(inner1.first() == inner0[io]);
                    lemma_index_of_key_unique(inner1, pskv, 0);
                    lemma_index_of_key_unique(inner0, pskv, io);
                    assert(value_of_key(inner1, pskv) == value_of_key(inner0, pskv));
                    assert(got_entry == value_of_key(inner0, pskv));
                } else {
                    lemma_model_insert_frame(
                        inner0,
                        self.point_sizes_per_font as nat,
                        pskv,
                        got_entry,
                    );
                    assert(value_of_key(inner1, pskv) == got_entry);
                }
                assert(contains_key(inner1, pskv));
                if inner0.len() > 0 {
                    assert(value_of_key(inner1, pskv).bytes@ == inner0.first().1.bytes@);
                }
            }
        }
        result
    }
}

} // verus!

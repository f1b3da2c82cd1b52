//! The audio chunk cache: a single bounded cache keyed by file path,
//! holding playable chunk handles. Decoding a file and playing a chunk on
//! a hardware channel are the backend's work and come in as closures.
//!
//! Playback does not consult or change per-chunk state here: a parameter
//! change on one playing instance of a cached chunk may affect other
//! instances of the same chunk, which is a documented limitation.

use vstd::prelude::*;

use crate::bounded_cache::BoundedCache;
use crate::cache_model::{contains_key, model_insert, model_promote, value_of_key};

verus! {

/// Caches decoded audio chunks by file path and plays them.
pub struct AudioSystem<C> {
    chunks: BoundedCache<C>,
}

impl<C> AudioSystem<C> {
    /// The cached chunks: path bytes paired with the handle, most
    /// recently used first.
    pub closed spec fn view(&self) -> Seq<(Seq<u8>, C)> {
        self.chunks@
    }

    /// The fixed capacity.
    pub closed spec fn bound(&self) -> nat {
        self.chunks.bound()
    }

    /// Internal consistency.
    pub closed spec fn wf(&self) -> bool {
        self.chunks.wf()
    }

    /// An empty chunk cache holding at most `max_loaded_sounds` entries.
    pub fn new(max_loaded_sounds: usize) -> (r: Self)
        requires
            1 <= max_loaded_sounds,
        ensures
            r.wf(),
            r@ == Seq::<(Seq<u8>, C)>::empty(),
            r.bound() == max_loaded_sounds as nat,
    {
        Self { chunks: BoundedCache::new(max_loaded_sounds) }
    }

    /// Play the sound at the given path, decoding the file if its chunk
    /// is not cached. `decode_chunk` runs only on a miss; if it fails the
    /// error is passed through and the cache is left unchanged. On
    /// success `play_chunk` is handed the cached chunk exactly once.
    pub fn play<De: FnOnce() -> Result<C, String>, Pl: FnOnce(&C) -> ()>(
        &mut self,
        path: &Vec<u8>,
        decode_chunk: De,
        play_chunk: Pl,
    ) -> (r: Result<(), String>)
        requires
            old(self).wf(),
            call_requires(decode_chunk, ()),
            forall|c: &C| call_requires(play_chunk, (c,)),
        ensures
            final(self).wf(),
            final(self).bound() == old(self).bound(),
            match r {
                Ok(u) => {
                    let chunk = value_of_key(final(self)@, path@);
                    // the chunk is cached and was the one played
                    &&& contains_key(final(self)@, path@)
                    &&& (exists|c: &C| *c == chunk && #[trigger] call_ensures(play_chunk, (c,), ()))
                    // a hit only promotes; a miss caches what was decoded
                    &&& (if contains_key(old(self)@, path@) {
                        final(self)@ == model_promote(old(self)@, path@) && chunk == value_of_key(
                            old(self)@,
                            path@,
                        )
                    } else {
                        call_ensures(decode_chunk, (), Ok(chunk)) && final(self)@ == model_insert(
                            old(self)@,
                            old(self).bound(),
                            path@,
                            chunk,
                        )
                    })
                },
                Err(e) => !contains_key(old(self)@, path@) && final(self)@ == old(self)@
                    && call_ensures(decode_chunk, (), Err(e)),
            },
    {
        let got = self.chunks.try_get_or_insert(path, decode_chunk);
        match got {
            Err(e) => Err(e),
            Ok(c) => {
                let ghost chunk = *c;
                play_chunk(c);
                proof {
                    self.chunks.lemma_distinct();
                    old(self).chunks.lemma_distinct();
                    if contains_key(old(self)@, path@) {
                        let io = crate::cache_model::index_of_key(old(self)@, path@);
                        assert(0 <= io < old(self)@.len() && old(self)@[io].0 == path@);
                        old(self)@.remove_ensures(io);
                        assert(self.chunks@.first() == old(self)@[io]);
                        crate::cache_model::lemma_index_of_key_unique(self.chunks@, path@, 0);
                    } else {
                        crate::cache_model::lemma_model_insert_frame(
                            old(self)@,
                            old(self).bound(),
                            path@,
                            chunk,
                        );
                    }
                    assert(chunk == value_of_key(self.chunks@, path@));
                }
                Ok(())
            },
        }
    }
}

} // verus!

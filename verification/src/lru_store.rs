//! The trusted boundary around `lru::LruCache`, which supplies the
//! recency-ordered key index that `BoundedCache` is built on. The cache is
//! always instantiated at `LruCache<Vec<u8>, usize>`: byte-sequence keys,
//! slot indices as values. Its contents are named by two uninterpreted
//! functions, and each wrapped method states, over those names, what the
//! crate's source shows it does.

use vstd::prelude::*;

use crate::cache_model::{contains_key, model_insert, model_promote, model_remove, value_of_key};

verus! {

#[verifier::external_type_specification]
#[verifier::external_body]
#[verifier::reject_recursive_types(K)]
#[verifier::reject_recursive_types(V)]
#[verifier::reject_recursive_types(S)]
pub struct ExLruCache<K, V, S>(lru::LruCache<K, V, S>);

/// The entries of the cache, most recently used first, each a pair of the
/// key's bytes and the stored slot index.
pub uninterp spec fn lru_entries(c: lru::LruCache<Vec<u8>, usize>) -> Seq<(Seq<u8>, usize)>;

/// The fixed capacity the cache was created with.
pub uninterp spec fn lru_bound(c: lru::LruCache<Vec<u8>, usize>) -> nat;

/// Relies on `lru::LruCache::new`: a cache with the given capacity and no
/// entries.
#[verifier::external_body]
pub(crate) fn lru_new(cap: usize) -> (r: lru::LruCache<Vec<u8>, usize>)
    requires
        1 <= cap,
    ensures
        lru_entries(r) == Seq::<(Seq<u8>, usize)>::empty(),
        lru_bound(r) == cap as nat,
{
    lru::LruCache::new(std::num::NonZeroUsize::new(cap).unwrap())
}

/// Relies on `lru::LruCache::len`: the number of entries.
#[verifier::external_body]
pub(crate) fn lru_len(c: &lru::LruCache<Vec<u8>, usize>) -> (r: usize)
    ensures
        r == lru_entries(*c).len(),
{
    c.len()
}

/// Relies on `lru::LruCache::contains`: whether the key is present; the
/// recency order is not touched.
#[verifier::external_body]
pub(crate) fn lru_contains(c: &lru::LruCache<Vec<u8>, usize>, k: &Vec<u8>) -> (r: bool)
    ensures
        r == contains_key(lru_entries(*c), k@),
{
    c.contains(k)
}

/// Relies on `lru::LruCache::get`: returns the value stored under the key
/// and moves its entry to most recent; a missing key changes nothing.
#[verifier::external_body]
pub(crate) fn lru_get(c: &mut lru::LruCache<Vec<u8>, usize>, k: &Vec<u8>) -> (r: Option<usize>)
    ensures
        lru_bound(*final(c)) == lru_bound(*old(c)),
        lru_entries(*final(c)) == model_promote(lru_entries(*old(c)), k@),
        r == (if contains_key(lru_entries(*old(c)), k@) {
            Some(value_of_key(lru_entries(*old(c)), k@))
        } else {
            None::<usize>
        }),
{
    c.get(k).map(|v| *v)
}

/// Relies on `lru::LruCache::push`: inserts the pair as most recent. An
/// existing entry under the same key is replaced and returned; otherwise,
/// when the cache is full, the least recently used entry is evicted and
/// returned.
#[verifier::external_body]
pub(crate) fn lru_push(c: &mut lru::LruCache<Vec<u8>, usize>, k: Vec<u8>, v: usize) -> (r: Option<
    (Vec<u8>, usize),
>)
    ensures
        lru_bound(*final(c)) == lru_bound(*old(c)),
        lru_entries(*final(c)) == model_insert(
            lru_entries(*old(c)),
            lru_bound(*old(c)),
            k@,
            v,
        ),
        match r {
            None => !contains_key(lru_entries(*old(c)), k@) && lru_entries(*old(c)).len()
                < lru_bound(*old(c)),
            Some(p) => (contains_key(lru_entries(*old(c)), k@) && p.0@ == k@ && p.1
                == value_of_key(lru_entries(*old(c)), k@)) || (!contains_key(
                lru_entries(*old(c)),
                k@,
            ) && lru_entries(*old(c)).len() >= lru_bound(*old(c)) && p.0@ == lru_entries(
                *old(c),
            ).last().0 && p.1 == lru_entries(*old(c)).last().1),
        },
{
    c.push(k, v)
}

/// Relies on `lru::LruCache::pop`: removes the entry under the key and
/// returns its value, leaving the order of the other entries unchanged.
#[verifier::external_body]
pub(crate) fn lru_pop_key(c: &mut lru::LruCache<Vec<u8>, usize>, k: &Vec<u8>) -> (r: Option<usize>)
    ensures
        lru_bound(*final(c)) == lru_bound(*old(c)),
        lru_entries(*final(c)) == model_remove(lru_entries(*old(c)), k@),
        r == (if contains_key(lru_entries(*old(c)), k@) {
            Some(value_of_key(lru_entries(*old(c)), k@))
        } else {
            None::<usize>
        }),
{
    c.pop(k)
}

/// Relies on `lru::LruCache::pop_lru`: removes and returns the least
/// recently used entry.
#[verifier::external_body]
pub(crate) fn lru_pop_lru(c: &mut lru::LruCache<Vec<u8>, usize>) -> (r: Option<usize>)
    ensures
        lru_bound(*final(c)) == lru_bound(*old(c)),
        lru_entries(*old(c)).len() > 0 ==> r == Some(lru_entries(*old(c)).last().1)
            && lru_entries(*final(c)) == lru_entries(*old(c)).drop_last(),
        lru_entries(*old(c)).len() == 0 ==> r == None::<usize> && lru_entries(*final(c))
            == lru_entries(*old(c)),
{
    c.pop_lru().map(|p| p.1)
}

/// Relies on `lru::LruCache::peek`: the value stored under the key,
/// without updating the recency order.
#[verifier::external_body]
pub(crate) fn lru_peek(c: &lru::LruCache<Vec<u8>, usize>, k: &Vec<u8>) -> (r: Option<usize>)
    ensures
        r == (if contains_key(lru_entries(*c), k@) {
            Some(value_of_key(lru_entries(*c), k@))
        } else {
            None::<usize>
        }),
{
    c.peek(k).map(|v| *v)
}

/// Relies on `lru::LruCache::peek_mru`: the value of the most recently
/// used entry, without updating the recency order.
#[verifier::external_body]
pub(crate) fn lru_peek_mru(c: &lru::LruCache<Vec<u8>, usize>) -> (r: Option<usize>)
    ensures
        r == (if lru_entries(*c).len() > 0 {
            Some(lru_entries(*c).first().1)
        } else {
            None::<usize>
        }),
{
    c.peek_mru().map(|p| *p.1)
}

} // verus!

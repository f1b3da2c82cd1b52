//! The mathematical model of a bounded least-recently-used cache: a
//! sequence of key/value pairs ordered by recency, most recent first.
//! Every cache operation is specified as a pure transformation of such a
//! sequence.

use vstd::prelude::*;

verus! {

/// Does an entry with key `k` occur in `s`?
pub open spec fn contains_key<V>(s: Seq<(Seq<u8>, V)>, k: Seq<u8>) -> bool {
    exists|i: int| 0 <= i < s.len() && s[i].0 == k
}

/// The index of the entry with key `k` (meaningful when `contains_key`
/// holds and keys are distinct).
pub open spec fn index_of_key<V>(s: Seq<(Seq<u8>, V)>, k: Seq<u8>) -> int {
    choose|i: int| 0 <= i < s.len() && s[i].0 == k
}

/// The value stored under key `k` (meaningful when `contains_key` holds).
pub open spec fn value_of_key<V>(s: Seq<(Seq<u8>, V)>, k: Seq<u8>) -> V {
    s[index_of_key(s, k)].1
}

/// No two entries share a key.
pub open spec fn distinct_keys<V>(s: Seq<(Seq<u8>, V)>) -> bool {
    forall|i: int, j: int| 0 <= i < j < s.len() ==> s[i].0 != s[j].0
}

/// Does the exact entry `e` occur in `s`?
pub open spec fn entry_in<V>(s: Seq<(Seq<u8>, V)>, e: (Seq<u8>, V)) -> bool {
    exists|u: int| 0 <= u < s.len() && e == #[trigger] s[u]
}

/// Looking a key up promotes its entry to most recent; a missing key
/// changes nothing.
pub open spec fn model_promote<V>(s: Seq<(Seq<u8>, V)>, k: Seq<u8>) -> Seq<(Seq<u8>, V)> {
    if contains_key(s, k) {
        let i = index_of_key(s, k);
        seq![s[i]] + s.remove(i)
    } else {
        s
    }
}

/// Inserting under an existing key replaces its value and promotes it;
/// inserting a fresh key when the cache is full first evicts the least
/// recently used entry (the last); otherwise the new entry just becomes
/// the most recent.
pub open spec fn model_insert<V>(s: Seq<(Seq<u8>, V)>, bound: nat, k: Seq<u8>, v: V) -> Seq<
    (Seq<u8>, V),
> {
    if contains_key(s, k) {
        seq![(k, v)] + s.remove(index_of_key(s, k))
    } else if s.len() >= bound {
        seq![(k, v)] + s.drop_last()
    } else {
        seq![(k, v)] + s
    }
}

/// Removing a key deletes its entry without touching the order of the
/// others.
pub open spec fn model_remove<V>(s: Seq<(Seq<u8>, V)>, k: Seq<u8>) -> Seq<(Seq<u8>, V)> {
    if contains_key(s, k) {
        s.remove(index_of_key(s, k))
    } else {
        s
    }
}

/// `model_insert` puts the new entry in front, keeps keys distinct, and
/// every other entry of the result was already present.
pub proof fn lemma_model_insert_frame<V>(s: Seq<(Seq<u8>, V)>, bound: nat, k: Seq<u8>, v: V)
    requires
        bound >= 1,
        distinct_keys(s),
    ensures
        model_insert(s, bound, k, v).len() > 0,
        model_insert(s, bound, k, v).first() == (k, v),
        distinct_keys(model_insert(s, bound, k, v)),
        contains_key(model_insert(s, bound, k, v), k),
        value_of_key(model_insert(s, bound, k, v), k) == v,
        forall|t: int|
            1 <= t < model_insert(s, bound, k, v).len() ==> entry_in(
                s,
                #[trigger] model_insert(s, bound, k, v)[t],
            ),
{
    let r = model_insert(s, bound, k, v);
    if contains_key(s, k) {
        let io = index_of_key(s, k);
        assert(0 <= io < s.len() && s[io].0 == k);
        s.remove_ensures(io);
        assert(r == seq![(k, v)] + s.remove(io));
        assert forall|t: int| 1 <= t < r.len() implies entry_in(s, #[trigger] r[t]) by {
            if t - 1 < io {
                assert(0 <= t - 1 < s.len() && r[t] == s[t - 1]);
            } else {
                assert(0 <= t < s.len() && r[t] == s[t]);
            }
        }
        assert forall|t: int, u: int| 0 <= t < u < r.len() implies r[t].0 != r[u].0 by {
            if t == 0 {
                if u - 1 < io {
                    assert(r[u] == s[u - 1]);
                    lemma_index_of_key_unique(s, k, io);
                    if s[u - 1].0 == k {
                        lemma_index_of_key_unique(s, k, u - 1);
                    }
                } else {
                    assert(r[u] == s[u]);
                    if s[u].0 == k {
                        lemma_index_of_key_unique(s, k, u);
                    }
                }
            } else {
                if t - 1 < io {
                    assert(r[t] == s[t - 1]);
                } else {
                    assert(r[t] == s[t]);
                }
                if u - 1 < io {
                    assert(r[u] == s[u - 1]);
                } else {
                    assert(r[u] == s[u]);
                }
            }
        }
    } else {
        let tail = if s.len() >= bound {
            s.drop_last()
        } else {
            s
        };
        assert(r == seq![(k, v)] + tail);
        assert(tail.len() <= s.len());
        assert(forall|t: int| 0 <= t < tail.len() ==> tail[t] == s[t]);
        assert forall|t: int| 1 <= t < r.len() implies entry_in(s, #[trigger] r[t]) by {
            assert(r[t] == tail[t - 1]);
            assert(tail[t - 1] == s[t - 1]);
            assert(0 <= t - 1 < s.len() && r[t] == s[t - 1]);
        }
        assert forall|t: int, u: int| 0 <= t < u < r.len() implies r[t].0 != r[u].0 by {
            if t == 0 {
                assert(r[u] == s[u - 1]);
                if s[u - 1].0 == k {
                    assert(contains_key(s, k));
                }
            } else {
                assert(r[t] == s[t - 1]);
                assert(r[u] == s[u - 1]);
            }
        }
    }
    assert(r.first() == (k, v));
    lemma_index_of_key_unique(r, k, 0);
}

/// `model_remove` keeps keys distinct and every remaining entry was
/// already present.
pub proof fn lemma_model_remove_frame<V>(s: Seq<(Seq<u8>, V)>, k: Seq<u8>)
    requires
        distinct_keys(s),
    ensures
        distinct_keys(model_remove(s, k)),
        !contains_key(model_remove(s, k), k),
        forall|t: int|
            0 <= t < model_remove(s, k).len() ==> entry_in(s, #[trigger] model_remove(s, k)[t]),
{
    let r = model_remove(s, k);
    if contains_key(s, k) {
        let io = index_of_key(s, k);
        assert(0 <= io < s.len() && s[io].0 == k);
        s.remove_ensures(io);
        assert forall|t: int| 0 <= t < r.len() implies entry_in(s, #[trigger] r[t]) by {
            if t < io {
                assert(0 <= t < s.len() && r[t] == s[t]);
            } else {
                assert(0 <= t + 1 < s.len() && r[t] == s[t + 1]);
            }
        }
        assert forall|t: int, u: int| 0 <= t < u < r.len() implies r[t].0 != r[u].0 by {
            if t < io {
                assert(r[t] == s[t]);
            } else {
                assert(r[t] == s[t + 1]);
            }
            if u < io {
                assert(r[u] == s[u]);
            } else {
                assert(r[u] == s[u + 1]);
            }
        }
        if contains_key(r, k) {
            let t = index_of_key(r, k);
            assert(0 <= t < r.len() && r[t].0 == k);
            if t < io {
                assert(r[t] == s[t]);
                lemma_index_of_key_unique(s, k, t);
            } else {
                assert(r[t] == s[t + 1]);
                lemma_index_of_key_unique(s, k, t + 1);
            }
            assert(false);
        }
    } else {
        assert forall|t: int| 0 <= t < r.len() implies entry_in(s, #[trigger] r[t]) by {
            assert(0 <= t < s.len() && r[t] == s[t]);
        }
    }
}

/// Removing a key and inserting it afresh is the same as inserting it
/// over the old entry directly.
pub proof fn lemma_remove_then_insert<V>(s: Seq<(Seq<u8>, V)>, bound: nat, k: Seq<u8>, v: V)
    requires
        distinct_keys(s),
        bound >= 1,
        s.len() <= bound,
    ensures
        model_insert(model_remove(s, k), bound, k, v) == model_insert(s, bound, k, v),
{
    if contains_key(s, k) {
        let io = index_of_key(s, k);
        assert(0 <= io < s.len() && s[io].0 == k);
        s.remove_ensures(io);
        let sr = s.remove(io);
        lemma_model_remove_frame(s, k);
        assert(model_remove(s, k) == sr);
        assert(!contains_key(sr, k));
        assert(sr.len() < bound);
        assert(model_insert(sr, bound, k, v) == seq![(k, v)] + sr);
        assert(model_insert(s, bound, k, v) == seq![(k, v)] + s.remove(io));
    }
}

/// Folding `model_insert` over a sequence of entries, first entry first.
pub open spec fn model_insert_all<V>(
    s: Seq<(Seq<u8>, V)>,
    bound: nat,
    entries: Seq<(Seq<u8>, V)>,
) -> Seq<(Seq<u8>, V)>
    decreases entries.len(),
{
    if entries.len() == 0 {
        s
    } else {
        model_insert_all(
            model_insert(s, bound, entries[0].0, entries[0].1),
            bound,
            entries.drop_first(),
        )
    }
}

/// Inserting entries whose keys are distinct and all absent from the
/// start state stacks them up newest-first in front of the start state,
/// truncated to the capacity.
pub proof fn lemma_insert_all_fresh<V>(
    s: Seq<(Seq<u8>, V)>,
    bound: nat,
    entries: Seq<(Seq<u8>, V)>,
)
    requires
        bound >= 1,
        s.len() <= bound,
        distinct_keys(entries),
        forall|i: int| 0 <= i < entries.len() ==> !contains_key(s, (#[trigger] entries[i]).0),
    ensures
        model_insert_all(s, bound, entries).len() == (if entries.len() + s.len() <= bound {
            (entries.len() + s.len()) as int
        } else {
            bound as int
        }),
        forall|j: int|
            0 <= j < model_insert_all(s, bound, entries).len() && j < entries.len()
                ==> model_insert_all(s, bound, entries)[j] == entries[entries.len() - 1 - j],
        forall|j: int|
            entries.len() <= j < model_insert_all(s, bound, entries).len() ==> model_insert_all(
                s,
                bound,
                entries,
            )[j] == s[j - entries.len()],
    decreases entries.len(),
{
    if entries.len() == 0 {
    } else {
        let e0 = entries[0];
        assert(!contains_key(s, e0.0));
        let s1 = model_insert(s, bound, e0.0, e0.1);
        let rest = entries.drop_first();
        assert(s1.len() == (if s.len() + 1 <= bound {
            (s.len() + 1) as int
        } else {
            bound as int
        }));
        assert(s1[0] == e0);
        assert(forall|j: int| 1 <= j < s1.len() ==> s1[j] == s[j - 1]);
        assert(forall|i: int| 0 <= i < rest.len() ==> rest[i] == entries[i + 1]);
        assert forall|i: int| 0 <= i < rest.len() implies !contains_key(
            s1,
            (#[trigger] rest[i]).0,
        ) by {
            if contains_key(s1, rest[i].0) {
                let t = index_of_key(s1, rest[i].0);
                assert(0 <= t < s1.len() && s1[t].0 == rest[i].0);
                if t == 0 {
                    assert(entries[0].0 == entries[i + 1].0);
                } else {
                    assert(s[t - 1].0 == entries[i + 1].0);
                    assert(contains_key(s, entries[i + 1].0));
                }
                assert(false);
            }
        }
        lemma_insert_all_fresh(s1, bound, rest);
        let res = model_insert_all(s, bound, entries);
        assert(res == model_insert_all(s1, bound, rest));
        assert forall|j: int| 0 <= j < res.len() && j < entries.len() implies res[j]
            == entries[entries.len() - 1 - j] by {
            if j < rest.len() {
                assert(res[j] == rest[rest.len() - 1 - j]);
                assert(rest[rest.len() - 1 - j] == entries[entries.len() - 1 - j]);
            } else {
                assert(j == rest.len());
                assert(res[j] == s1[j - rest.len()]);
                assert(s1[0] == entries[0]);
            }
        }
        assert forall|j: int| entries.len() <= j < res.len() implies res[j] == s[j
            - entries.len()] by {
            assert(res[j] == s1[j - rest.len()]);
            assert(s1[j - rest.len()] == s[j - rest.len() - 1]);
        }
    }
}

/// For a cache of some capacity, filling it with that many entries plus
/// one more, all keys distinct and none looked up in between, evicts
/// exactly the first-inserted key: it is absent afterwards and every
/// later key is present.
pub proof fn lemma_lru_eviction<V>(entries: Seq<(Seq<u8>, V)>, bound: nat)
    requires
        distinct_keys(entries),
        bound >= 1,
        entries.len() == bound + 1,
    ensures
        !contains_key(
            model_insert_all(Seq::<(Seq<u8>, V)>::empty(), bound, entries),
            entries[0].0,
        ),
        forall|i: int|
            1 <= i < entries.len() ==> contains_key(
                model_insert_all(Seq::<(Seq<u8>, V)>::empty(), bound, entries),
                (#[trigger] entries[i]).0,
            ),
{
    lemma_insert_all_fresh(Seq::<(Seq<u8>, V)>::empty(), bound, entries);
    let res = model_insert_all(Seq::<(Seq<u8>, V)>::empty(), bound, entries);
    assert(res.len() == bound);
    if contains_key(res, entries[0].0) {
        let t = index_of_key(res, entries[0].0);
        assert(0 <= t < res.len() && res[t].0 == entries[0].0);
        assert(res[t] == entries[entries.len() - 1 - t]);
        assert(entries[entries.len() - 1 - t].0 != entries[0].0);
        assert(false);
    }
    assert forall|i: int| 1 <= i < entries.len() implies contains_key(
        res,
        (#[trigger] entries[i]).0,
    ) by {
        let j = entries.len() - 1 - i;
        assert(res[j] == entries[i]);
    }
}

/// Filling a cache to capacity with distinct keys, then looking the
/// first key up, then inserting one more fresh key evicts the second
/// key — the least recently used one — and keeps the first.
pub proof fn lemma_recency_promotion<V>(
    entries: Seq<(Seq<u8>, V)>,
    extra: (Seq<u8>, V),
    bound: nat,
)
    requires
        distinct_keys(entries.push(extra)),
        bound >= 2,
        entries.len() == bound,
    ensures
        ({
            let filled = model_insert_all(Seq::<(Seq<u8>, V)>::empty(), bound, entries);
            let touched = model_promote(filled, entries[0].0);
            let res = model_insert(touched, bound, extra.0, extra.1);
            &&& contains_key(res, entries[0].0)
            &&& !contains_key(res, entries[1].0)
            &&& contains_key(res, extra.0)
            &&& forall|i: int|
                2 <= i < entries.len() ==> contains_key(res, (#[trigger] entries[i]).0)
        }),
{
    assert(forall|i: int| 0 <= i < entries.len() ==> entries.push(extra)[i] == entries[i]);
    assert(entries.push(extra)[entries.len() as int] == extra);
    assert forall|i: int, j: int| 0 <= i < j < entries.len() implies entries[i].0 != entries[j].0
        by {
        assert(entries.push(extra)[i].0 != entries.push(extra)[j].0);
    }
    assert forall|i: int| 0 <= i < entries.len() implies (#[trigger] entries[i]).0 != extra.0 by {
        assert(entries.push(extra)[i].0 != entries.push(extra)[entries.len() as int].0);
    }
    lemma_insert_all_fresh(Seq::<(Seq<u8>, V)>::empty(), bound, entries);
    let filled = model_insert_all(Seq::<(Seq<u8>, V)>::empty(), bound, entries);
    assert(filled.len() == bound);
    assert(forall|j: int| 0 <= j < bound ==> filled[j] == entries[entries.len() - 1 - j]);
    assert forall|t: int, u: int| 0 <= t < u < filled.len() implies filled[t].0 != filled[u].0 by {
        assert(filled[t] == entries[entries.len() - 1 - t]);
        assert(filled[u] == entries[entries.len() - 1 - u]);
    }
    assert(filled[bound - 1] == entries[0]);
    lemma_index_of_key_unique(filled, entries[0].0, bound - 1);
    let touched = model_promote(filled, entries[0].0);
    assert(touched == seq![filled[bound - 1]] + filled.remove(bound - 1));
    filled.remove_ensures(bound - 1);
    assert(touched.len() == bound);
    assert(touched[0] == entries[0]);
    assert forall|j: int| 1 <= j < bound implies touched[j] == entries[bound - j] by {
        assert(touched[j] == filled.remove(bound - 1)[j - 1]);
        assert(filled.remove(bound - 1)[j - 1] == filled[j - 1]);
        assert(filled[j - 1] == entries[entries.len() - j]);
    }
    if contains_key(touched, extra.0) {
        let t = index_of_key(touched, extra.0);
        assert(0 <= t < touched.len() && touched[t].0 == extra.0);
        if t == 0 {
            assert(entries[0].0 == extra.0);
        } else {
            assert(entries[bound - t].0 == extra.0);
        }
        assert(false);
    }
    let res = model_insert(touched, bound, extra.0, extra.1);
    assert(res == seq![(extra.0, extra.1)] + touched.drop_last());
    assert(res.len() == bound);
    assert(res[0].0 == extra.0);
    assert(contains_key(res, extra.0));
    assert(forall|j: int| 1 <= j < bound ==> res[j] == touched[j - 1]);
    assert(res[1] == touched[0]);
    assert(contains_key(res, entries[0].0));
    if contains_key(res, entries[1].0) {
        let t = index_of_key(res, entries[1].0);
        assert(0 <= t < res.len() && res[t].0 == entries[1].0);
        if t == 0 {
            assert(extra.0 == entries[1].0);
        } else if t == 1 {
            assert(entries[0].0 == entries[1].0);
        } else {
            assert(res[t] == touched[t - 1]);
            assert(touched[t - 1] == entries[bound - t + 1]);
            assert(entries[bound - t + 1].0 != entries[1].0);
        }
        assert(false);
    }
    assert forall|i: int| 2 <= i < entries.len() implies contains_key(
        res,
        (#[trigger] entries[i]).0,
    ) by {
        let j = bound - i + 1;
        assert(2 <= j < bound);
        assert(res[j] == touched[j - 1]);
        assert(touched[j - 1] == entries[bound - j + 1]);
        assert(res[j].0 == entries[i].0);
    }
}

/// With distinct keys, any index holding key `k` is the index `choose`
/// picks.
pub proof fn lemma_index_of_key_unique<V>(s: Seq<(Seq<u8>, V)>, k: Seq<u8>, i: int)
    requires
        distinct_keys(s),
        0 <= i < s.len(),
        s[i].0 == k,
    ensures
        index_of_key(s, k) == i,
        contains_key(s, k),
{
    assert(contains_key(s, k));
    let j = index_of_key(s, k);
    if i < j {
        assert(s[i].0 != s[j].0);
    }
    if j < i {
        assert(s[j].0 != s[i].0);
    }
}

} // verus!

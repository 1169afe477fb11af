//! The in-memory embedding store: one embedding per document id, kept in a
//! vector in insertion order, with a hash index from id to position.
//!
//! The store is generic over the embedding model handle `M` and the
//! embedding value `E`: it never looks inside either. Similarity search is
//! split in two: the caller scores each stored embedding against the query
//! and hands the store one order key per entry (a larger key ranks higher);
//! the store ranks the entries by those keys.
//!
//! Embeddings are written to bytes as their 32-bit IEEE-754 bit patterns,
//! little-endian, four bytes per component.

use crate::decimal::{decimal, decimal_string};
use vstd::hash_map::StringHashMap;
use vstd::prelude::*;

verus! {

// ---------------------------------------------------------------------------
// The mathematical model: the entries of a store, in storage order.
// ---------------------------------------------------------------------------

/// Whether some entry carries the id `id`.
pub open spec fn contains_id<E>(entries: Seq<(Seq<char>, E)>, id: Seq<char>) -> bool {
    exists|i: int| 0 <= i < entries.len() && #[trigger] entries[i].0 == id
}

/// The position of the entry with id `id` (meaningful when `contains_id`).
pub open spec fn position_of<E>(entries: Seq<(Seq<char>, E)>, id: Seq<char>) -> int {
    choose|i: int| 0 <= i < entries.len() && #[trigger] entries[i].0 == id
}

/// No two entries share an id.
pub open spec fn unique_ids<E>(entries: Seq<(Seq<char>, E)>) -> bool {
    forall|i: int, j: int|
        0 <= i < entries.len() && 0 <= j < entries.len() && i != j ==> #[trigger] entries[i].0
            != #[trigger] entries[j].0
}

/// The entries after storing `e` under `id`: an existing entry with that id
/// is overwritten in place, otherwise a new entry is appended.
pub open spec fn upserted<E>(entries: Seq<(Seq<char>, E)>, id: Seq<char>, e: E) -> Seq<
    (Seq<char>, E),
> {
    if contains_id(entries, id) {
        entries.update(position_of(entries, id), (id, e))
    } else {
        entries.push((id, e))
    }
}

/// The entries after removing `id`: the last entry takes the place of the
/// removed one; without such an entry nothing changes.
pub open spec fn removed<E>(entries: Seq<(Seq<char>, E)>, id: Seq<char>) -> Seq<(Seq<char>, E)> {
    if contains_id(entries, id) {
        entries.update(position_of(entries, id), entries.last()).drop_last()
    } else {
        entries
    }
}

/// The entries read as a map from id to embedding.
pub open spec fn as_map<E>(entries: Seq<(Seq<char>, E)>) -> Map<Seq<char>, E> {
    Map::new(|id: Seq<char>| contains_id(entries, id), |id: Seq<char>| entries[position_of(entries, id)].1)
}

/// In a store without duplicate ids, the position of an id is the one
/// position that carries it.
pub proof fn lemma_position_of_unique<E>(entries: Seq<(Seq<char>, E)>, id: Seq<char>, p: int)
    requires
        unique_ids(entries),
        0 <= p < entries.len(),
        entries[p].0 == id,
    ensures
        contains_id(entries, id),
        position_of(entries, id) == p,
{
    assert(contains_id(entries, id));
    let q: int = position_of(entries, id);
    assert(entries[q].0 == id);
}


/// Storing under an id and then reading the entries as a map gives the old
/// map with that id bound to the new embedding; ids stay unique, and the
/// number of entries grows by one exactly when the id was new.
pub proof fn lemma_upserted_as_map<E>(entries: Seq<(Seq<char>, E)>, id: Seq<char>, e: E)
    requires
        unique_ids(entries),
    ensures
        unique_ids(upserted(entries, id, e)),
        as_map(upserted(entries, id, e)) == as_map(entries).insert(id, e),
        upserted(entries, id, e).len() == entries.len() + if contains_id(entries, id) {
            0int
        } else {
            1int
        },
{
    let s = upserted(entries, id, e);
    if contains_id(entries, id) {
        let p: int = position_of(entries, id);
        assert forall|i: int, j: int|
            0 <= i < s.len() && 0 <= j < s.len() && i != j implies #[trigger] s[i].0
            != #[trigger] s[j].0 by {
            assert(entries[p].0 == id);
        }
        lemma_position_of_unique(s, id, p);
        assert forall|k: Seq<char>| #[trigger] contains_id(s, k) == contains_id(entries, k) by {
            if contains_id(s, k) {
                let q: int = position_of(s, k);
                if q != p {
                    assert(entries[q].0 == k);
                }
            }
            if contains_id(entries, k) {
                let q: int = position_of(entries, k);
                if q != p {
                    assert(s[q].0 == k);
                }
            }
        }
        assert forall|k: Seq<char>| contains_id(s, k) && k != id implies position_of(s, k)
            == position_of(entries, k) by {
            let q: int = position_of(entries, k);
            assert(q != p);
            assert(s[q].0 == k);
            lemma_position_of_unique(s, k, q);
        }
    } else {
        let n: int = entries.len() as int;
        assert forall|i: int, j: int|
            0 <= i < s.len() && 0 <= j < s.len() && i != j implies #[trigger] s[i].0
            != #[trigger] s[j].0 by {
            if i == n {
                assert(entries[j].0 != id);
            } else if j == n {
                assert(entries[i].0 != id);
            }
        }
        lemma_position_of_unique(s, id, n);
        assert forall|k: Seq<char>| #[trigger] contains_id(s, k) == (contains_id(entries, k) || k
            == id) by {
            if contains_id(entries, k) {
                let q: int = position_of(entries, k);
                assert(s[q].0 == k);
            }
            if contains_id(s, k) && k != id {
                let q: int = position_of(s, k);
                assert(entries[q].0 == k);
            }
        }
        assert forall|k: Seq<char>| contains_id(s, k) && k != id implies position_of(s, k)
            == position_of(entries, k) by {
            let q: int = position_of(entries, k);
            assert(s[q].0 == k);
            lemma_position_of_unique(s, k, q);
        }
    }
    assert(as_map(s) =~= as_map(entries).insert(id, e));
}

/// Removing an id and then reading the entries as a map gives the old map
/// without that id; ids stay unique, and the number of entries drops by one
/// exactly when the id was present.
pub proof fn lemma_removed_as_map<E>(entries: Seq<(Seq<char>, E)>, id: Seq<char>)
    requires
        unique_ids(entries),
    ensures
        unique_ids(removed(entries, id)),
        as_map(removed(entries, id)) == as_map(entries).remove(id),
        removed(entries, id).len() == entries.len() - if contains_id(entries, id) {
            1int
        } else {
            0int
        },
{
    let s = removed(entries, id);
    if contains_id(entries, id) {
        let p = position_of(entries, id);
        let last: int = entries.len() - 1;
        assert(entries[p].0 == id);
        // the entry at position i of s came from position src(i) of entries
        assert forall|i: int| 0 <= i < s.len() implies #[trigger] s[i] == entries[if i == p {
            last
        } else {
            i
        }] by {}
        assert forall|i: int, j: int|
            0 <= i < s.len() && 0 <= j < s.len() && i != j implies #[trigger] s[i].0
            != #[trigger] s[j].0 by {
            let si: int = if i == p {
                last
            } else {
                i
            };
            let sj: int = if j == p {
                last
            } else {
                j
            };
            assert(s[i] == entries[si]);
            assert(s[j] == entries[sj]);
        }
        assert forall|k: Seq<char>| #[trigger] contains_id(s, k) == (contains_id(entries, k) && k
            != id) by {
            if contains_id(s, k) {
                let q: int = position_of(s, k);
                let sq: int = if q == p {
                    last
                } else {
                    q
                };
                assert(s[q] == entries[sq]);
                assert(entries[sq].0 == k);
                assert(sq != p);
            }
            if contains_id(entries, k) && k != id {
                let q: int = position_of(entries, k);
                assert(q != p);
                if q == last {
                    assert(s[p].0 == k);
                } else {
                    assert(s[q].0 == k);
                }
            }
        }
        assert forall|k: Seq<char>| contains_id(s, k) implies s[position_of(s, k)].1 == entries[position_of(entries, k)].1 by {
            let q: int = position_of(entries, k);
            assert(q != p);
            if q == last {
                assert(s[p] == entries[last]);
                lemma_position_of_unique(s, k, p);
            } else {
                assert(s[q] == entries[q]);
                lemma_position_of_unique(s, k, q);
            }
        }
        assert(as_map(s) =~= as_map(entries).remove(id));
    } else {
        assert(as_map(s) =~= as_map(entries).remove(id));
    }
}

/// Storing twice under the same id is storing the second embedding: the
/// first is overwritten and the entry keeps its place.
pub proof fn lemma_upsert_twice<E>(entries: Seq<(Seq<char>, E)>, id: Seq<char>, e1: E, e2: E)
    requires
        unique_ids(entries),
    ensures
        upserted(upserted(entries, id, e1), id, e2) == upserted(entries, id, e2),
{
    let s1 = upserted(entries, id, e1);
    lemma_upserted_as_map(entries, id, e1);
    if contains_id(entries, id) {
        let p: int = position_of(entries, id);
        assert(entries[p].0 == id);
        lemma_position_of_unique(s1, id, p);
        assert(upserted(s1, id, e2) =~= upserted(entries, id, e2));
    } else {
        let n: int = entries.len() as int;
        lemma_position_of_unique(s1, id, n);
        assert(upserted(s1, id, e2) =~= upserted(entries, id, e2));
    }
}

/// Removing an id that was just stored for the first time restores the
/// entries exactly.
pub proof fn lemma_remove_undoes_add<E>(entries: Seq<(Seq<char>, E)>, id: Seq<char>, e: E)
    requires
        unique_ids(entries),
        !contains_id(entries, id),
    ensures
        removed(upserted(entries, id, e), id) == entries,
{
    let s = upserted(entries, id, e);
    let n: int = entries.len() as int;
    lemma_upserted_as_map(entries, id, e);
    lemma_position_of_unique(s, id, n);
    assert(removed(s, id) =~= entries);
}

/// A ranking lists distinct positions, in order of non-increasing key.
pub proof fn lemma_ranking_sorted(keys: Seq<u32>, top_k: nat, rank: Seq<int>)
    requires
        is_ranking(keys, top_k, rank),
    ensures
        forall|i: int, j: int|
            0 <= i < j < rank.len() ==> keys[#[trigger] rank[i]] >= keys[#[trigger] rank[j]]
                && rank[i] != rank[j],
{
    assert forall|i: int, j: int| 0 <= i < j < rank.len() implies keys[#[trigger] rank[i]]
        >= keys[#[trigger] rank[j]] && rank[i] != rank[j] by {
        assert(ranks_before(keys, rank[i], rank[j]));
    }
}

// ---------------------------------------------------------------------------
// Ranking by order keys.
// ---------------------------------------------------------------------------

/// Entry `a` ranks before entry `b`: it has the larger key, or the same key
/// and an earlier position (ties keep storage order).
pub open spec fn ranks_before(keys: Seq<u32>, a: int, b: int) -> bool {
    keys[a] > keys[b] || (keys[a] == keys[b] && a < b)
}

/// `rank` lists the positions of the best `min(top_k, keys.len())` entries,
/// best first: every listed position ranks before every later one and before
/// every position that is not listed.
pub open spec fn is_ranking(keys: Seq<u32>, top_k: nat, rank: Seq<int>) -> bool {
    &&& rank.len() == if top_k < keys.len() {
        top_k
    } else {
        keys.len()
    }
    &&& forall|i: int| 0 <= i < rank.len() ==> 0 <= #[trigger] rank[i] < keys.len()
    &&& forall|i: int, j: int|
        0 <= i < j < rank.len() ==> ranks_before(keys, #[trigger] rank[i], #[trigger] rank[j])
    &&& forall|i: int, q: int|
        0 <= i < rank.len() && 0 <= q < keys.len() && !rank.contains(q) ==> #[trigger] ranks_before(
            keys,
            rank[i],
            q,
        )
}

/// The ranking is determined by the keys and `top_k`: two rankings of the
/// same keys are equal.
pub proof fn lemma_ranking_unique(keys: Seq<u32>, top_k: nat, r1: Seq<int>, r2: Seq<int>)
    requires
        is_ranking(keys, top_k, r1),
        is_ranking(keys, top_k, r2),
    ensures
        r1 == r2,
{
    if r1.len() > 0 {
        lemma_ranking_prefix(keys, top_k, r1, r2, r1.len() - 1);
    }
    assert(r1 =~= r2);
}

proof fn lemma_ranking_prefix(keys: Seq<u32>, top_k: nat, r1: Seq<int>, r2: Seq<int>, n: int)
    requires
        is_ranking(keys, top_k, r1),
        is_ranking(keys, top_k, r2),
        0 <= n < r1.len(),
    ensures
        forall|m: int| 0 <= m <= n ==> r1[m] == r2[m],
    decreases n,
{
    if n > 0 {
        lemma_ranking_prefix(keys, top_k, r1, r2, n - 1);
    }
    let a: int = r1[n];
    let b: int = r2[n];
    if a != b {
        // Where does b stand in r1? Not before n, where r1 and r2 agree.
        if r1.contains(b) {
            let j: int = choose|j: int| 0 <= j < r1.len() && r1[j] == b;
            if j < n {
                assert(r2[j] == b);
                assert(ranks_before(keys, r2[j], r2[n]));
            }
            if j > n {
                assert(ranks_before(keys, r1[n], r1[j]));
            }
        } else {
            assert(ranks_before(keys, r1[n], b));
        }
        if r2.contains(a) {
            let j: int = choose|j: int| 0 <= j < r2.len() && r2[j] == a;
            if j < n {
                assert(r1[j] == a);
                assert(ranks_before(keys, r1[j], r1[n]));
            }
            if j > n {
                assert(ranks_before(keys, r2[n], r2[j]));
            }
        } else {
            assert(ranks_before(keys, r2[n], a));
        }
    }
}

/// The positions of the best `top_k` keys, best first; equal keys keep
/// their order.
pub fn rank_by_key(keys: &Vec<u32>, top_k: usize) -> (rank: Vec<usize>)
    ensures
        rank@.len() == if top_k < keys@.len() {
            top_k as int
        } else {
            keys@.len() as int
        },
        forall|i: int| 0 <= i < rank@.len() ==> (#[trigger] rank@[i] as int) < keys@.len(),
        forall|i: int, j: int|
            0 <= i < j < rank@.len() ==> keys@[#[trigger] rank@[i] as int] >= keys@[#[trigger] rank@[j] as int]
                && rank@[i] != rank@[j],
        forall|i: int, q: int|
            0 <= i < rank@.len() && 0 <= q < keys@.len() && !rank@.contains(q as usize)
                ==> keys@[#[trigger] rank@[i] as int] >= #[trigger] keys@[q],
        is_ranking(keys@, top_k as nat, rank@.map_values(|p: usize| p as int)),
{
    let n: usize = keys.len();
    // Insertion sort of all positions; position i goes after every position
    // with a key at least as large.
    let mut order: Vec<usize> = Vec::new();
    let mut i: usize = 0;
    while i < n
        invariant
            n == keys.len(),
            i <= n,
            order.len() == i,
            forall|x: int| 0 <= x < order.len() ==> #[trigger] order[x] < i,
            forall|q: int| 0 <= q < i ==> #[trigger] order@.contains(q as usize),
            forall|x: int, y: int|
                0 <= x < y < order.len() ==> ranks_before(
                    keys@,
                    #[trigger] order[x] as int,
                    #[trigger] order[y] as int,
                ),
        decreases n - i,
    {
        let key: u32 = keys[i];
        let mut p: usize = 0;
        while p < order.len() && keys[order[p]] >= key
            invariant
                n == keys.len(),
                i < n,
                key == keys@[i as int],
                p <= order.len(),
                forall|x: int| 0 <= x < order.len() ==> #[trigger] order[x] < i,
                forall|x: int| 0 <= x < p ==> keys@[#[trigger] order[x] as int] >= key,
            decreases order.len() - p,
        {
            p = p + 1;
        }
        let ghost before = order@;
        order.insert(p, i);
        proof {
            assert forall|q: int| 0 <= q < i + 1 implies #[trigger] order@.contains(q as usize) by {
                if q < i {
                    assert(before.contains(q as usize));
                    let x: int = choose|x: int| 0 <= x < before.len() && before[x] == q as usize;
                    if x < p {
                        assert(order@[x] == q as usize);
                    } else {
                        assert(order@[x + 1] == q as usize);
                    }
                } else {
                    assert(order@[p as int] == i);
                }
            }
            assert forall|x: int, y: int| 0 <= x < y < order.len() implies ranks_before(
                keys@,
                #[trigger] order[x] as int,
                #[trigger] order[y] as int,
            ) by {
                if y < p {
                    assert(order[x] == before[x] && order[y] == before[y]);
                } else if y == p {
                    assert(order[x] == before[x]);
                } else if x > p {
                    assert(order[x] == before[x - 1] && order[y] == before[y - 1]);
                } else if x == p {
                    assert(order[y] == before[y - 1]);
                    assert(keys@[before[p as int] as int] < key);
                    if y - 1 > p {
                        assert(ranks_before(keys@, before[p as int] as int, before[y - 1] as int));
                    }
                } else {
                    assert(order[x] == before[x] && order[y] == before[y - 1]);
                }
            }
        }
        i = i + 1;
    }
    let k: usize = if top_k < n {
        top_k
    } else {
        n
    };
    let ghost full = order@;
    order.truncate(k);
    proof {
        let ghost rank = order@.map_values(|p: usize| p as int);
        assert forall|j: int, q: int|
            0 <= j < rank.len() && 0 <= q < keys.len() && !rank.contains(q) implies #[trigger] ranks_before(
            keys@,
            rank[j],
            q,
        ) by {
            assert(rank[j] == full[j] as int);
            assert(full.contains(q as usize));
            let x: int = choose|x: int| 0 <= x < full.len() && full[x] == q as usize;
            if x < k {
                assert(rank[x] == q);
            }
            assert(ranks_before(keys@, full[j] as int, full[x] as int));
        }
        assert forall|j: int, q: int|
            0 <= j < order@.len() && 0 <= q < keys@.len() && !order@.contains(q as usize) implies keys@[#[trigger] order@[j] as int]
            >= #[trigger] keys@[q] by {
            assert(order@[j] == full[j]);
            assert(full.contains(q as usize));
            let x: int = choose|x: int| 0 <= x < full.len() && full[x] == q as usize;
            if x < k {
                assert(order@[x] == q as usize);
            }
            assert(ranks_before(keys@, full[j] as int, full[x] as int));
        }
        assert forall|a: int, b: int| 0 <= a < b < order@.len() implies keys@[#[trigger] order@[a] as int]
            >= keys@[#[trigger] order@[b] as int] && order@[a] != order@[b] by {
            assert(order@[a] == full[a] && order@[b] == full[b]);
            assert(ranks_before(keys@, full[a] as int, full[b] as int));
        }
        assert forall|a: int| 0 <= a < order@.len() implies (#[trigger] order@[a] as int) < keys@.len() by {
            assert(order@[a] == full[a]);
        }
    }
    order
}

// ---------------------------------------------------------------------------
// Byte framing of embeddings.
// ---------------------------------------------------------------------------

/// Byte `k` (0 = least significant) of the little-endian form of `w`.
pub open spec fn le_byte(w: u32, k: int) -> u8 {
    if k == 0 {
        (w & 0xff) as u8
    } else if k == 1 {
        ((w >> 8u32) & 0xff) as u8
    } else if k == 2 {
        ((w >> 16u32) & 0xff) as u8
    } else {
        ((w >> 24u32) & 0xff) as u8
    }
}

/// The word whose little-endian bytes are `b0, b1, b2, b3`.
pub open spec fn le_word(b0: u8, b1: u8, b2: u8, b3: u8) -> u32 {
    (b0 as u32) | ((b1 as u32) << 8u32) | ((b2 as u32) << 16u32) | ((b3 as u32) << 24u32)
}

/// The bytes of `words`: four little-endian bytes per word, in order.
pub open spec fn le_bytes(words: Seq<u32>) -> Seq<u8> {
    Seq::new(4 * words.len(), |i: int| le_byte(words[i / 4], i % 4))
}

/// The words of `bytes`, read four little-endian bytes at a time.
pub open spec fn le_words(bytes: Seq<u8>) -> Seq<u32> {
    Seq::new(
        bytes.len() / 4,
        |i: int| le_word(bytes[4 * i], bytes[4 * i + 1], bytes[4 * i + 2], bytes[4 * i + 3]),
    )
}

proof fn lemma_word_bytes(w: u32)
    ensures
        le_word(le_byte(w, 0), le_byte(w, 1), le_byte(w, 2), le_byte(w, 3)) == w,
{
    assert((((w & 0xff) as u8) as u32) | (((((w >> 8u32) & 0xff) as u8) as u32) << 8u32) | (((((w
        >> 16u32) & 0xff) as u8) as u32) << 16u32) | (((((w >> 24u32) & 0xff) as u8) as u32)
        << 24u32) == w) by (bit_vector);
}

proof fn lemma_byte_words(b0: u8, b1: u8, b2: u8, b3: u8)
    ensures
        le_byte(le_word(b0, b1, b2, b3), 0) == b0,
        le_byte(le_word(b0, b1, b2, b3), 1) == b1,
        le_byte(le_word(b0, b1, b2, b3), 2) == b2,
        le_byte(le_word(b0, b1, b2, b3), 3) == b3,
{
    let w: u32 = le_word(b0, b1, b2, b3);
    assert(w == (b0 as u32) | ((b1 as u32) << 8u32) | ((b2 as u32) << 16u32) | ((b3 as u32)
        << 24u32));
    assert(((((b0 as u32) | ((b1 as u32) << 8u32) | ((b2 as u32) << 16u32) | ((b3 as u32)
        << 24u32)) & 0xff) as u8) == b0) by (bit_vector);
    assert((((((b0 as u32) | ((b1 as u32) << 8u32) | ((b2 as u32) << 16u32) | ((b3 as u32)
        << 24u32)) >> 8u32) & 0xff) as u8) == b1) by (bit_vector);
    assert((((((b0 as u32) | ((b1 as u32) << 8u32) | ((b2 as u32) << 16u32) | ((b3 as u32)
        << 24u32)) >> 16u32) & 0xff) as u8) == b2) by (bit_vector);
    assert((((((b0 as u32) | ((b1 as u32) << 8u32) | ((b2 as u32) << 16u32) | ((b3 as u32)
        << 24u32)) >> 24u32) & 0xff) as u8) == b3) by (bit_vector);
}

/// Reading back the bytes of an embedding gives the embedding.
pub proof fn lemma_embedding_bytes_roundtrip(words: Seq<u32>)
    ensures
        le_bytes(words).len() % 4 == 0,
        le_words(le_bytes(words)) == words,
{
    let bytes = le_bytes(words);
    assert forall|i: int| 0 <= i < words.len() implies le_words(bytes)[i] == words[i] by {
        assert(bytes[4 * i] == le_byte(words[i], 0));
        assert(bytes[4 * i + 1] == le_byte(words[i], 1));
        assert(bytes[4 * i + 2] == le_byte(words[i], 2));
        assert(bytes[4 * i + 3] == le_byte(words[i], 3));
        lemma_word_bytes(words[i]);
    }
    assert(le_words(bytes) =~= words);
}

/// Writing back the words read from a byte string of whole words gives the
/// byte string.
pub proof fn lemma_bytes_embedding_roundtrip(bytes: Seq<u8>)
    requires
        bytes.len() % 4 == 0,
    ensures
        le_bytes(le_words(bytes)) == bytes,
{
    let words = le_words(bytes);
    assert forall|i: int| 0 <= i < bytes.len() implies le_bytes(words)[i] == bytes[i] by {
        let w: int = i / 4;
        lemma_byte_words(bytes[4 * w], bytes[4 * w + 1], bytes[4 * w + 2], bytes[4 * w + 3]);
    }
    assert(le_bytes(words) =~= bytes);
}

/// Why a byte string is not an embedding.
#[derive(Debug, Clone, Copy, PartialEq, Eq)]
pub enum EmbeddingBytesError {
    /// The length, in bytes, is not a whole number of components.
    InvalidLength(usize),
}

impl EmbeddingBytesError {
    /// The error as a message.
    pub fn message(&self) -> (msg: String)
        ensures
            match *self {
                EmbeddingBytesError::InvalidLength(n) => msg@ == "invalid embedding byte length: "@
                    + decimal(n as nat),
            },
    {
        match *self {
            EmbeddingBytesError::InvalidLength(n) => {
                let mut msg = String::from_str("invalid embedding byte length: ");
                let digits = decimal_string(n);
                msg.append(digits.as_str());
                msg
            },
        }
    }
}

/// The bytes of an embedding, given as the bit patterns of its components.
pub fn embedding_to_bytes(embedding: &[u32]) -> (bytes: Vec<u8>)
    ensures
        bytes@ == le_bytes(embedding@),
{
    let mut bytes: Vec<u8> = Vec::new();
    let mut i: usize = 0;
    while i < embedding.len()
        invariant
            i <= embedding@.len(),
            bytes@ == le_bytes(embedding@.take(i as int)),
        decreases embedding@.len() - i,
    {
        let w: u32 = embedding[i];
        bytes.push((w & 0xff) as u8);
        bytes.push(((w >> 8u32) & 0xff) as u8);
        bytes.push(((w >> 16u32) & 0xff) as u8);
        bytes.push(((w >> 24u32) & 0xff) as u8);
        proof {
            let prev = embedding@.take(i as int);
            let next = embedding@.take(i + 1);
            assert forall|j: int| 0 <= j < 4 * next.len() implies #[trigger] bytes@[j] == le_byte(
                next[j / 4],
                j % 4,
            ) by {
                if j < 4 * prev.len() {
                    assert(bytes@[j] == le_bytes(prev)[j]);
                    assert(prev[j / 4] == next[j / 4]);
                }
            }
            assert(bytes@ =~= le_bytes(next));
        }
        i = i + 1;
    }
    assert(embedding@.take(embedding@.len() as int) =~= embedding@);
    bytes
}

/// The embedding held by `bytes`, as the bit patterns of its components;
/// fails when the length is not a multiple of four.
pub fn bytes_to_embedding(bytes: &[u8]) -> (embedding: Result<Vec<u32>, EmbeddingBytesError>)
    ensures
        match embedding {
            Ok(words) => bytes@.len() % 4 == 0 && words@ == le_words(bytes@),
            Err(e) => bytes@.len() % 4 != 0 && e == EmbeddingBytesError::InvalidLength(
                bytes@.len() as usize,
            ),
        },
{
    if bytes.len() % 4 != 0 {
        return Err(EmbeddingBytesError::InvalidLength(bytes.len()));
    }
    let len: usize = bytes.len();
    let n: usize = len / 4;
    let mut words: Vec<u32> = Vec::new();
    let mut i: usize = 0;
    while i < n
        invariant
            len == bytes@.len(),
            n == len / 4,
            4 * n == len,
            i <= n,
            words@ =~= le_words(bytes@).take(i as int),
        decreases n - i,
    {
        let b: usize = 4 * i;
        let w: u32 = (bytes[b] as u32) | ((bytes[b + 1] as u32) << 8u32) | ((bytes[b + 2] as u32)
            << 16u32) | ((bytes[b + 3] as u32) << 24u32);
        words.push(w);
        i = i + 1;
    }
    assert(le_words(bytes@).take(n as int) =~= le_words(bytes@));
    Ok(words)
}

// ---------------------------------------------------------------------------
// The store.
// ---------------------------------------------------------------------------

/// Embeddings of documents, one per document id, with the model that made them.
pub struct EmbeddingStore<M, E> {
    model: Option<M>,
    vectors: Vec<(String, E)>,
    doc_index: StringHashMap<usize>,
}

impl<M, E> View for EmbeddingStore<M, E> {
    type V = Seq<(Seq<char>, E)>;

    /// The stored entries, in storage order.
    closed spec fn view(&self) -> Seq<(Seq<char>, E)> {
        self.vectors@.map_values(|p: (String, E)| (p.0@, p.1))
    }
}

impl<M, E> EmbeddingStore<M, E> {
    /// The model handle the store was made with.
    pub closed spec fn spec_model(&self) -> Option<M> {
        self.model
    }

    /// The index maps each stored id to its position and nothing else.
    pub closed spec fn wf(&self) -> bool {
        &&& forall|i: int|
            0 <= i < self.vectors@.len() ==> {
                &&& #[trigger] self.doc_index@.contains_key(self.vectors@[i].0@)
                &&& self.doc_index@[self.vectors@[i].0@] == i
            }
        &&& forall|k: Seq<char>| #[trigger]
            self.doc_index@.contains_key(k) ==> {
                &&& self.doc_index@[k] < self.vectors@.len()
                &&& self.vectors@[self.doc_index@[k] as int].0@ == k
            }
    }

    /// A well-formed store holds no id twice, and its index answers exactly
    /// for the stored ids.
    proof fn lemma_wf_unique(&self)
        requires
            self.wf(),
        ensures
            unique_ids(self@),
            forall|k: Seq<char>| #[trigger]
                contains_id(self@, k) <==> self.doc_index@.contains_key(k),
            forall|k: Seq<char>| #[trigger]
                contains_id(self@, k) ==> position_of(self@, k) == self.doc_index@[k] as int,
    {
        assert forall|i: int, j: int|
            0 <= i < self@.len() && 0 <= j < self@.len() && i != j implies #[trigger] self@[i].0
            != #[trigger] self@[j].0 by {
            assert(self@[i].0 == self.vectors@[i].0@);
            assert(self@[j].0 == self.vectors@[j].0@);
            assert(self.doc_index@.contains_key(self.vectors@[i].0@));
            assert(self.doc_index@.contains_key(self.vectors@[j].0@));
        }
        assert forall|k: Seq<char>| #[trigger] contains_id(self@, k) implies (
        self.doc_index@.contains_key(k) && position_of(self@, k) == self.doc_index@[k] as int) by {
            let p: int = position_of(self@, k);
            assert(self@[p].0 == self.vectors@[p].0@);
            lemma_position_of_unique(self@, k, p);
        }
        assert forall|k: Seq<char>| #[trigger]
            self.doc_index@.contains_key(k) implies contains_id(self@, k) by {
            let p: int = self.doc_index@[k] as int;
            assert(self@[p].0 == k);
        }
    }

    /// No two entries of a well-formed store share an id.
    pub proof fn lemma_unique_ids(&self)
        requires
            self.wf(),
        ensures
            unique_ids(self@),
    {
        self.lemma_wf_unique();
    }

    /// An empty store that uses `model` (absent when the model could not be
    /// loaded).
    pub fn new(model: Option<M>) -> (store: Self)
        ensures
            store.wf(),
            unique_ids(store@),
            store@ == Seq::<(Seq<char>, E)>::empty(),
            store.spec_model() == model,
    {
        let store = EmbeddingStore { model, vectors: Vec::new(), doc_index: StringHashMap::new() };
        assert(store@ =~= Seq::<(Seq<char>, E)>::empty());
        store
    }

    /// Whether an embedding model is loaded.
    pub fn is_available(&self) -> (available: bool)
        ensures
            available == self.spec_model().is_some(),
    {
        self.model.is_some()
    }

    /// The embedding model, when one is loaded.
    pub fn model(&self) -> (model: Option<&M>)
        ensures
            model matches Some(m) ==> self.spec_model() == Some(*m),
            model is None <==> self.spec_model() is None,
    {
        self.model.as_ref()
    }

    /// The number of stored embeddings.
    pub fn len(&self) -> (n: usize)
        ensures
            n == self@.len(),
    {
        self.vectors.len()
    }

    /// Whether no embedding is stored.
    pub fn is_empty(&self) -> (empty: bool)
        ensures
            empty <==> self@.len() == 0,
    {
        self.vectors.is_empty()
    }

    /// The stored entries, in storage order.
    pub fn entries(&self) -> (entries: &Vec<(String, E)>)
        ensures
            entries@.map_values(|p: (String, E)| (p.0@, p.1)) == self@,
    {
        &self.vectors
    }

    /// The best `top_k` entries under `score_keys`, best first. The caller
    /// gives one order key per stored entry, in storage order (a larger key
    /// is a better match); each result is the entry's id and its position,
    /// by which the caller finds the score it computed. Equal keys keep
    /// storage order.
    pub fn search(&self, score_keys: &Vec<u32>, top_k: usize) -> (results: Vec<(String, usize)>)
        requires
            score_keys@.len() == self@.len(),
        ensures
            results@.len() == if top_k < self@.len() {
                top_k as int
            } else {
                self@.len() as int
            },
            forall|i: int|
                0 <= i < results@.len() ==> (#[trigger] results@[i]).1 < self@.len()
                    && results@[i].0@ == self@[results@[i].1 as int].0,
            forall|i: int, j: int|
                0 <= i < j < results@.len() ==> score_keys@[(#[trigger] results@[i]).1 as int]
                    >= score_keys@[(#[trigger] results@[j]).1 as int],
            exists|rank: Seq<int>|
                {
                    &&& is_ranking(score_keys@, top_k as nat, rank)
                    &&& results@.len() == rank.len()
                    &&& forall|i: int|
                        0 <= i < rank.len() ==> {
                            &&& #[trigger] results@[i].0@ == self@[rank[i]].0
                            &&& results@[i].1 == rank[i]
                        }
                },
    {
        if self.vectors.is_empty() {
            let results: Vec<(String, usize)> = Vec::new();
            proof {
                let rank = Seq::<int>::empty();
                assert(is_ranking(score_keys@, top_k as nat, rank));
            }
            return results;
        }
        let rank = rank_by_key(score_keys, top_k);
        let ghost rank_int = rank@.map_values(|p: usize| p as int);
        let mut results: Vec<(String, usize)> = Vec::new();
        let mut i: usize = 0;
        while i < rank.len()
            invariant
                i <= rank.len(),
                rank_int == rank@.map_values(|p: usize| p as int),
                is_ranking(score_keys@, top_k as nat, rank_int),
                score_keys@.len() == self@.len(),
                self@.len() == self.vectors@.len(),
                self@ == self.vectors@.map_values(|p: (String, E)| (p.0@, p.1)),
                results@.len() == i,
                forall|j: int|
                    0 <= j < i ==> {
                        &&& #[trigger] results@[j].0@ == self@[rank_int[j]].0
                        &&& results@[j].1 == rank_int[j]
                    },
            decreases rank.len() - i,
        {
            let pos: usize = rank[i];
            proof {
                assert(rank_int[i as int] == pos as int);
            }
            results.push((self.vectors[pos].0.clone(), pos));
            i = i + 1;
        }
        proof {
            assert forall|a: int| 0 <= a < results@.len() implies (#[trigger] results@[a]).1
                < self@.len() && results@[a].0@ == self@[results@[a].1 as int].0 by {
                assert(results@[a].0@ == self@[rank_int[a]].0);
                assert(rank_int[a] == rank@[a] as int);
            }
            assert forall|a: int, b: int| 0 <= a < b < results@.len() implies score_keys@[(
            #[trigger] results@[a]).1 as int] >= score_keys@[(#[trigger] results@[b]).1 as int] by {
                assert(results@[a].0@ == self@[rank_int[a]].0);
                assert(results@[b].0@ == self@[rank_int[b]].0);
                assert(rank_int[a] == rank@[a] as int);
                assert(rank_int[b] == rank@[b] as int);
                assert(score_keys@[rank@[a] as int] >= score_keys@[rank@[b] as int]);
            }
        }
        results
    }

    /// Stores `embedding` under `doc_id`, replacing the embedding already
    /// stored under that id.
    pub fn add(&mut self, doc_id: &str, embedding: E)
        requires
            old(self).wf(),
        ensures
            final(self).wf(),
            unique_ids(final(self)@),
            final(self)@ == upserted(old(self)@, doc_id@, embedding),
            final(self).spec_model() == old(self).spec_model(),
    {
        proof {
            self.lemma_wf_unique();
        }
        let found = match self.doc_index.get(doc_id) {
            Some(p) => Some(*p),
            None => None,
        };
        proof {
            assert(unique_ids(upserted(old(self)@, doc_id@, embedding))) by {
                lemma_upserted_as_map(old(self)@, doc_id@, embedding);
            }
        }
        match found {
            Some(pos) => {
                let ghost before = self.vectors@;
                self.vectors.set(pos, (doc_id.to_owned(), embedding));
                proof {
                    lemma_position_of_unique(old(self)@, doc_id@, pos as int);
                    assert(self@ =~= old(self)@.update(pos as int, (doc_id@, embedding)));
                    assert forall|i: int| 0 <= i < self.vectors@.len() implies self.vectors@[i].0@
                        == before[i].0@ by {}
                }
            },
            None => {
                let pos: usize = self.vectors.len();
                self.doc_index.insert(doc_id.to_owned(), pos);
                self.vectors.push((doc_id.to_owned(), embedding));
                proof {
                    assert(!contains_id(old(self)@, doc_id@));
                    assert(self@ =~= old(self)@.push((doc_id@, embedding)));
                    assert forall|i: int| 0 <= i < self.vectors@.len() implies {
                        &&& #[trigger] self.doc_index@.contains_key(self.vectors@[i].0@)
                        &&& self.doc_index@[self.vectors@[i].0@] == i
                    } by {
                        if i < pos {
                            assert(old(self)@[i].0 == self.vectors@[i].0@);
                            assert(self.vectors@[i] == old(self).vectors@[i]);
                            assert(old(self).doc_index@.contains_key(self.vectors@[i].0@));
                            assert(self.vectors@[i].0@ != doc_id@);
                        } else {
                            assert(self.vectors@[i].0@ == doc_id@);
                        }
                    }
                }
            },
        }
    }

    /// Removes the embedding stored under `doc_id`; the last entry moves into
    /// its place. Nothing changes when no embedding is stored under that id.
    pub fn remove(&mut self, doc_id: &str)
        requires
            old(self).wf(),
        ensures
            final(self).wf(),
            unique_ids(final(self)@),
            final(self)@ == removed(old(self)@, doc_id@),
            final(self).spec_model() == old(self).spec_model(),
    {
        proof {
            self.lemma_wf_unique();
        }
        let found = match self.doc_index.get(doc_id) {
            Some(p) => Some(*p),
            None => None,
        };
        proof {
            assert(unique_ids(removed(old(self)@, doc_id@))) by {
                lemma_removed_as_map(old(self)@, doc_id@);
            }
        }
        if let Some(pos) = found {
            let last: usize = self.vectors.len() - 1;
            let ghost old_vectors = self.vectors@;
            let ghost old_index = self.doc_index@;
            if pos != last {
                let moved_id = self.vectors[last].0.clone();
                self.doc_index.insert(moved_id, pos);
            }
            self.vectors.swap_remove(pos);
            self.doc_index.remove(doc_id);
            proof {
                lemma_position_of_unique(old(self)@, doc_id@, pos as int);
                assert(self@ =~= old(self)@.update(pos as int, old(self)@.last()).drop_last());
                assert forall|i: int| 0 <= i < self.vectors@.len() implies {
                    &&& #[trigger] self.doc_index@.contains_key(self.vectors@[i].0@)
                    &&& self.doc_index@[self.vectors@[i].0@] == i
                } by {
                    assert(old(self)@[last as int].0 == old_vectors[last as int].0@);
                    assert(old(self)@[pos as int].0 == old_vectors[pos as int].0@);
                    assert(old_index.contains_key(old_vectors[last as int].0@));
                    assert(old_index.contains_key(old_vectors[pos as int].0@));
                    if i == pos {
                        assert(self.vectors@[i] == old_vectors[last as int]);
                        assert(old_vectors[last as int].0@ != doc_id@);
                    } else {
                        assert(self.vectors@[i] == old_vectors[i]);
                        assert(old(self)@[i].0 == old_vectors[i].0@);
                        assert(old_index.contains_key(old_vectors[i].0@));
                        assert(old_index[old_vectors[i].0@] == i);
                        assert(old_vectors[i].0@ != doc_id@);
                        assert(pos != last ==> old_vectors[i].0@ != old_vectors[last as int].0@);
                    }
                }
                assert forall|k: Seq<char>| #[trigger] self.doc_index@.contains_key(k) implies {
                    &&& self.doc_index@[k] < self.vectors@.len()
                    &&& self.vectors@[self.doc_index@[k] as int].0@ == k
                } by {
                    if pos != last && k == old_vectors[last as int].0@ {
                    } else {
                        let j: int = old_index[k] as int;
                        assert(old(self)@[j].0 == k);
                        assert(old(self)@[pos as int].0 == doc_id@);
                        assert(j != pos);
                        assert(j != last) by {
                            if j == last && pos != last {
                                assert(k == old_vectors[last as int].0@);
                            }
                        }
                    }
                }
            }
        } else {
            proof {
                assert(!contains_id(old(self)@, doc_id@));
            }
        }
    }
}

} // verus!

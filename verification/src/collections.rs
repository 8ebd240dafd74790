//! The hash maps of `ahash` and `indexmap` that the tokenizer keeps its
//! tables in, declared to Verus, with their contents named and with a
//! contract for each method that the library calls.
use vstd::prelude::*;
use vstd::utf8::encode_utf8;
use ahash::AHashMap;
use ahash::RandomState;
use indexmap::IndexMap;
use std::cmp::Ordering;
use crate::text::chars_of;
use crate::text::utf8_len;

verus! {

#[verifier::external_type_specification]
#[verifier::external_body]
pub struct ExRandomState(RandomState);

#[verifier::external_type_specification]
#[verifier::external_body]
#[verifier::reject_recursive_types(K)]
#[verifier::reject_recursive_types(V)]
#[verifier::reject_recursive_types(S)]
pub struct ExAHashMap<K, V, S>(AHashMap<K, V, S>);

#[verifier::external_type_specification]
#[verifier::external_body]
#[verifier::reject_recursive_types(K)]
#[verifier::reject_recursive_types(V)]
#[verifier::reject_recursive_types(S)]
pub struct ExIndexMap<K, V, S>(IndexMap<K, V, S>);

/// An ordered map from strings to token ids.
pub type OrderedIds = IndexMap<String, u32, RandomState>;

/// What a string-to-rank hash map holds.
pub uninterp spec fn rank_table(m: AHashMap<String, usize>) -> Map<Seq<char>, usize>;

/// What an id-to-string hash map holds.
pub uninterp spec fn id_table(m: AHashMap<u32, String>) -> Map<u32, Seq<char>>;

/// What an ordered string-to-id map holds, in its order.
pub uninterp spec fn entries(m: IndexMap<String, u32, RandomState>) -> Seq<(Seq<char>, u32)>;

/// No key occurs twice.
pub open spec fn keys_unique(e: Seq<(Seq<char>, u32)>) -> bool {
    forall|i: int, j: int| 0 <= i < e.len() && 0 <= j < e.len() && i != j ==> #[trigger] e[i].0 != #[trigger] e[j].0
}

/// Whether some entry has key `k`.
pub open spec fn has_key(e: Seq<(Seq<char>, u32)>, k: Seq<char>) -> bool {
    exists|j: int| 0 <= j < e.len() && #[trigger] e[j].0 == k
}

/// The position of the entry with key `k`, when there is one.
pub open spec fn key_pos(e: Seq<(Seq<char>, u32)>, k: Seq<char>) -> int {
    choose|j: int| 0 <= j < e.len() && #[trigger] e[j].0 == k
}

/// The value stored under `k`.
pub open spec fn lookup(e: Seq<(Seq<char>, u32)>, k: Seq<char>) -> Option<u32> {
    if has_key(e, k) {
        Some(e[key_pos(e, k)].1)
    } else {
        None
    }
}

/// The entries after `IndexMap::insert(k, v)`: an existing key keeps its
/// place and takes the new value; a new key goes last.
pub open spec fn insert_entry(e: Seq<(Seq<char>, u32)>, k: Seq<char>, v: u32) -> Seq<(Seq<char>, u32)> {
    if has_key(e, k) {
        e.update(key_pos(e, k), (k, v))
    } else {
        e.push((k, v))
    }
}

/// The number of bytes of an entry's key.
pub open spec fn key_bytes(entry: (Seq<char>, u32)) -> nat {
    encode_utf8(entry.0).len()
}

/// `new` is a stable reordering of `old` by the byte length of the keys.
pub open spec fn sorted_by_key_bytes(old: Seq<(Seq<char>, u32)>, new: Seq<(Seq<char>, u32)>) -> bool {
    &&& new.to_multiset() == old.to_multiset()
    &&& forall|i: int, j: int| 0 <= i < j < new.len() ==> key_bytes(#[trigger] new[i]) <= key_bytes(#[trigger] new[j])
    &&& forall|i: int, j: int|
        0 <= i < j < new.len() && key_bytes(#[trigger] new[i]) == key_bytes(#[trigger] new[j]) ==> exists|a: int, b: int|
            0 <= a < b < old.len() && #[trigger] old[a] == new[i] && #[trigger] old[b] == new[j]
}

pub proof fn lemma_lookup_insert(e: Seq<(Seq<char>, u32)>, k: Seq<char>, v: u32, q: Seq<char>)
    requires
        keys_unique(e),
    ensures
        keys_unique(insert_entry(e, k, v)),
        lookup(insert_entry(e, k, v), q) == (if q == k { Some(v) } else { lookup(e, q) }),
        has_key(insert_entry(e, k, v), q) == (q == k || has_key(e, q)),
{
    let e2 = insert_entry(e, k, v);
    if has_key(e, k) {
        let p = key_pos(e, k);
        assert(e2[p].0 == k);
        if has_key(e, q) {
            let pq = key_pos(e, q);
            assert(e2[pq].0 == q);
        }
        if has_key(e2, q) {
            let j = key_pos(e2, q);
            if j != p {
                assert(e[j].0 == q);
            }
        }
    } else {
        assert(e2[e.len() as int].0 == k);
        if has_key(e, q) {
            let pq = key_pos(e, q);
            assert(e2[pq].0 == q);
        }
        if has_key(e2, q) {
            let j = key_pos(e2, q);
            if j != e.len() {
                assert(e[j].0 == q);
            }
        }
    }
}

/// `AHashMap::new`: an empty map.
#[verifier::external_body]
pub(crate) fn rank_table_new() -> (m: AHashMap<String, usize>)
    ensures
        rank_table(m).dom().is_empty(),
{
    AHashMap::new()
}

/// `AHashMap::insert`: the key now maps to the value.
#[verifier::external_body]
pub(crate) fn rank_table_insert(m: &mut AHashMap<String, usize>, k: String, v: usize)
    ensures
        rank_table(*final(m)) == rank_table(*old(m)).insert(k@, v),
{
    m.insert(k, v);
}

/// `AHashMap::get`: the value stored under the key, if any.
#[verifier::external_body]
pub(crate) fn rank_table_get(m: &AHashMap<String, usize>, k: &str) -> (r: Option<usize>)
    ensures
        r == (if rank_table(*m).contains_key(k@) { Some(rank_table(*m)[k@]) } else { None }),
{
    m.get(k).copied()
}

/// `AHashMap::new`: an empty map.
#[verifier::external_body]
pub(crate) fn id_table_new() -> (m: AHashMap<u32, String>)
    ensures
        id_table(m).dom().is_empty(),
{
    AHashMap::new()
}

/// `AHashMap::insert`: the key now maps to the value.
#[verifier::external_body]
pub(crate) fn id_table_insert(m: &mut AHashMap<u32, String>, k: u32, v: String)
    ensures
        id_table(*final(m)) == id_table(*old(m)).insert(k, v@),
{
    m.insert(k, v);
}

/// `AHashMap::get`: the string stored under the key, if any.
#[verifier::external_body]
pub(crate) fn id_table_get(m: &AHashMap<u32, String>, k: u32) -> (r: Option<&String>)
    ensures
        r is Some == id_table(*m).contains_key(k),
        r matches Some(s) ==> s@ == id_table(*m)[k],
{
    m.get(&k)
}

/// `IndexMap::default`: an empty map.
#[verifier::external_body]
pub(crate) fn ordered_new() -> (m: IndexMap<String, u32, RandomState>)
    ensures
        entries(m) == Seq::<(Seq<char>, u32)>::empty(),
{
    IndexMap::default()
}

/// `IndexMap::insert`: an existing key keeps its place and takes the new
/// value; a new key is appended. Keys stay unique.
#[verifier::external_body]
pub(crate) fn ordered_insert(m: &mut IndexMap<String, u32, RandomState>, k: String, v: u32)
    ensures
        entries(*final(m)) == insert_entry(entries(*old(m)), k@, v),
{
    m.insert(k, v);
}

/// `IndexMap::get`: the value stored under the key, if any.
#[verifier::external_body]
pub(crate) fn ordered_get(m: &IndexMap<String, u32, RandomState>, k: &str) -> (r: Option<u32>)
    ensures
        r == lookup(entries(*m), k@),
{
    m.get(k).copied()
}

/// `IndexMap::len`: the number of entries.
#[verifier::external_body]
pub(crate) fn ordered_len(m: &IndexMap<String, u32, RandomState>) -> (r: usize)
    ensures
        r == entries(*m).len(),
{
    m.len()
}

/// `IndexMap::get_index`: the entry at a position, if there is one.
#[verifier::external_body]
pub(crate) fn ordered_get_index(m: &IndexMap<String, u32, RandomState>, i: usize) -> (r: Option<(&String, &u32)>)
    ensures
        r is Some == (i < entries(*m).len()),
        r matches Some(p) ==> (p.0@, *p.1) == entries(*m)[i as int],
{
    m.get_index(i)
}

/// Orders two strings by their length in bytes.
pub fn compare_by_len(a: &String, b: &String) -> (r: Ordering)
    ensures
        r == (if encode_utf8(a@).len() < encode_utf8(b@).len() {
            Ordering::Less
        } else if encode_utf8(a@).len() == encode_utf8(b@).len() {
            Ordering::Equal
        } else {
            Ordering::Greater
        }),
{
    let la = utf8_len(&chars_of(a.as_str()));
    let lb = utf8_len(&chars_of(b.as_str()));
    if la < lb {
        Ordering::Less
    } else if la == lb {
        Ordering::Equal
    } else {
        Ordering::Greater
    }
}

/// `IndexMap::sort_by`, comparing keys by their length in bytes: a stable
/// sort, as the crate's documentation promises.
#[verifier::external_body]
pub(crate) fn ordered_sort_by_key_len(m: &mut IndexMap<String, u32, RandomState>)
    ensures
        sorted_by_key_bytes(entries(*old(m)), entries(*final(m))),
        keys_unique(entries(*old(m))) ==> keys_unique(entries(*final(m))),
{
    m.sort_by(|a, _, b, _| compare_by_len(a, b));
}

} // verus!

//! Laws of the tables that building makes, and that results depend on the
//! inputs alone, not on the hash maps' seeds.
use vstd::prelude::*;
use crate::collections::{has_key, insert_entry, key_pos, keys_unique, lemma_lookup_insert, lookup, sorted_by_key_bytes};
use crate::text::{decimal, has_hex_prefix};
use crate::tokenizer::{joined, merge_ranks, rune_entries, rune_value, special_entries, valid_config, vocab_entries, Tokenizer};
use crate::roundtrip::{lemma_decimal_injective, lemma_rune_entries, lemma_special_id, rune_from};

verus! {

/// A merge string's rank is the position of the last merge that joins to
/// it; strings that no merge joins to have no rank.
pub proof fn lemma_ranks_latest(merges: Seq<Seq<Seq<char>>>, k: Seq<char>)
    requires
        merges.len() <= usize::MAX,
    ensures
        merge_ranks(merges).contains_key(k) == exists|i: int| 0 <= i < merges.len() && #[trigger] joined(merges[i]) == k,
        merge_ranks(merges).contains_key(k) ==> merge_ranks(merges)[k] < merges.len()
            && joined(merges[merge_ranks(merges)[k] as int]) == k
            && forall|i: int| merge_ranks(merges)[k] < i < merges.len() ==> #[trigger] joined(merges[i]) != k,
    decreases merges.len(),
{
    if merges.len() > 0 {
        let d = merges.drop_last();
        lemma_ranks_latest(d, k);
        let l = merges.len() - 1;
        assert(merges[l] == merges.last());
        assert forall|i: int| 0 <= i < d.len() implies #[trigger] d[i] == merges[i] by {
        }
        if exists|i: int| 0 <= i < merges.len() && #[trigger] joined(merges[i]) == k {
            let i = choose|i: int| 0 <= i < merges.len() && #[trigger] joined(merges[i]) == k;
            if i < l {
                assert(joined(d[i]) == k);
            }
        }
        if exists|i: int| 0 <= i < d.len() && #[trigger] joined(d[i]) == k {
            let i = choose|i: int| 0 <= i < d.len() && #[trigger] joined(d[i]) == k;
            assert(joined(merges[i]) == k);
        }
        if k == joined(merges.last()) {
            assert(merge_ranks(merges)[k] == l);
        } else {
            assert(merge_ranks(merges).contains_key(k) == merge_ranks(d).contains_key(k));
            if merge_ranks(d).contains_key(k) {
                assert(merge_ranks(merges)[k] == merge_ranks(d)[k]);
                assert forall|i: int| merge_ranks(merges)[k] < i < merges.len() implies #[trigger] joined(merges[i]) != k by {
                    if i < l {
                        assert(joined(d[i]) != k);
                    }
                }
            }
        }
    }
}

/// Inserting keeps every key and adds the inserted one.
proof fn lemma_insert_keeps_keys(e: Seq<(Seq<char>, u32)>, k: Seq<char>, v: u32, q: Seq<char>)
    requires
        has_key(e, q) || q == k,
    ensures
        has_key(insert_entry(e, k, v), q),
{
    let e2 = insert_entry(e, k, v);
    if has_key(e, k) {
        let p = key_pos(e, k);
        if q == k {
            assert(e2[p].0 == q);
        } else {
            let j = key_pos(e, q);
            assert(j != p);
            assert(e2[j] == e[j]);
        }
    } else {
        if q == k {
            assert(e2[e.len() as int].0 == q);
        } else {
            let j = key_pos(e, q);
            assert(e2[j] == e[j]);
        }
    }
}

/// Every `0x` entry gives a rune keyed by the decimal rendering of its value.
proof fn lemma_rune_keys(v: Seq<(Seq<char>, u32)>, j: int)
    requires
        0 <= j < v.len(),
        has_hex_prefix(v[j].0),
    ensures
        has_key(rune_entries(v), decimal(rune_value(v[j].0) as nat)),
    decreases v.len(),
{
    let d = v.drop_last();
    let l = v.len() - 1;
    assert(v[l] == v.last());
    if j < l {
        assert(d[j] == v[j]);
        lemma_rune_keys(d, j);
        if has_hex_prefix(v.last().0) {
            lemma_insert_keeps_keys(rune_entries(d), decimal(rune_value(v.last().0) as nat), v.last().1, decimal(rune_value(v[j].0) as nat));
        }
    } else {
        lemma_insert_keeps_keys(rune_entries(d), decimal(rune_value(v.last().0) as nat), v.last().1, decimal(rune_value(v[j].0) as nat));
    }
}

/// The tables of a tokenizer built from valid inputs (with no more merges
/// than a `Vec` holds): a pair of strings has
/// a rank exactly when some merge joins to it, and then the rank of the
/// last such merge; the tokenizer has byte runes exactly when some token
/// begins with `0x`, and then a byte value has a rune exactly when some
/// `0x` token holds that value, the rune's id being the id of such a token;
/// its special tokens are exactly the given ones, each with its vocabulary
/// id.
pub proof fn lemma_built_tables(
    t: Tokenizer,
    vocab: Seq<(Seq<char>, u32)>,
    merges: Seq<Seq<Seq<char>>>,
    specials: Seq<Seq<char>>,
    pattern: Seq<char>,
    k: Seq<char>,
    b: u32,
    s: Seq<char>,
)
    requires
        t.built_from(vocab, merges, specials, pattern),
        valid_config(vocab, merges, specials, pattern),
        merges.len() <= usize::MAX,
    ensures
        t.ranks().contains_key(k) == exists|i: int| 0 <= i < merges.len() && #[trigger] joined(merges[i]) == k,
        t.ranks().contains_key(k) ==> t.ranks()[k] < merges.len() && joined(merges[t.ranks()[k] as int]) == k
            && forall|i: int| t.ranks()[k] < i < merges.len() ==> #[trigger] joined(merges[i]) != k,
        (t.runes() is Some) == exists|j: int| 0 <= j < t.vocab().len() && has_hex_prefix(#[trigger] t.vocab()[j].0),
        t.runes() matches Some(r) ==> (lookup(r, decimal(b as nat)) is Some) == exists|j: int| 0 <= j < t.vocab().len()
            && has_hex_prefix(#[trigger] t.vocab()[j].0) && rune_value(t.vocab()[j].0) == b,
        t.runes() matches Some(r) ==> (lookup(r, decimal(b as nat)) matches Some(id) ==> exists|j: int| 0 <= j < t.vocab().len()
            && has_hex_prefix(#[trigger] t.vocab()[j].0) && rune_value(t.vocab()[j].0) == b && t.vocab()[j].1 == id),
        t.special_set().contains(s) == specials.contains(s),
        specials.contains(s) ==> lookup(t.special_ids(), s) is Some && lookup(t.special_ids(), s) == lookup(t.vocab(), s),
{
    lemma_ranks_latest(merges, k);
    let v = t.vocab();
    if let Some(r) = t.runes() {
        assert(r == rune_entries(v));
        let key = decimal(b as nat);
        if lookup(r, key) is Some {
            let p = key_pos(r, key);
            lemma_rune_entries(v);
            assert(rune_from(v, r[p]));
            let j = choose|j: int| 0 <= j < v.len() && has_hex_prefix(#[trigger] v[j].0)
                && r[p].0 == decimal(rune_value(v[j].0) as nat) && r[p].1 == v[j].1;
            lemma_decimal_injective(rune_value(v[j].0) as nat, b as nat);
        }
        if exists|j: int| 0 <= j < v.len() && has_hex_prefix(#[trigger] v[j].0) && rune_value(v[j].0) == b {
            let j = choose|j: int| 0 <= j < v.len() && has_hex_prefix(#[trigger] v[j].0) && rune_value(v[j].0) == b;
            lemma_rune_keys(v, j);
        }
    }
    let ve = vocab_entries(vocab);
    assert forall|i: int| 0 <= i < specials.len() implies has_key(ve, #[trigger] specials[i]) by {
    }
    if t.special_set().contains(s) {
        assert(has_key(t.special_ids(), s));
        lemma_special_id(ve, specials, t.special_ids(), s);
    }
    if specials.contains(s) {
        lemma_specials_listed(t, ve, specials, s);
        lemma_special_id(ve, specials, t.special_ids(), s);
    }
}

/// Every given special token has an entry in the built table.
proof fn lemma_specials_listed(t: Tokenizer, ve: Seq<(Seq<char>, u32)>, specials: Seq<Seq<char>>, s: Seq<char>)
    requires
        sorted_by_key_bytes(special_entries(ve, specials), t.special_ids()),
        specials.contains(s),
    ensures
        lookup(t.special_ids(), s) is Some,
{
    broadcast use vstd::seq_lib::group_to_multiset_ensures;
    lemma_special_entries_keys(ve, specials, s);
    let old = special_entries(ve, specials);
    let p = key_pos(old, s);
    let e = old[p];
    assert(old.contains(e));
    assert(old.to_multiset().count(e) > 0);
    assert(t.special_ids().contains(e));
    let q = choose|q: int| 0 <= q < t.special_ids().len() && t.special_ids()[q] == e;
    assert(t.special_ids()[q].0 == s);
}

proof fn lemma_special_entries_keys(ve: Seq<(Seq<char>, u32)>, specials: Seq<Seq<char>>, s: Seq<char>)
    requires
        specials.contains(s),
    ensures
        has_key(special_entries(ve, specials), s),
    decreases specials.len(),
{
    let d = specials.drop_last();
    let last = specials.last();
    if s != last {
        let i = choose|i: int| 0 <= i < specials.len() && specials[i] == s;
        assert(i < d.len());
        assert(d[i] == s);
        lemma_special_entries_keys(ve, d, s);
    }
    lemma_insert_keeps_keys(special_entries(ve, d), last, lookup(ve, last)->0, s);
}

/// Two tokenizers built from the same inputs, in whatever process and with
/// whatever hash seeds, give the same results: the same vocabulary and
/// special tokens, the same splitting, encoding, decoding and unicode-trim
/// table; so `encode_checked`, `decode`, `make_unitrim` and
/// `tokens_containing`, whose results their contracts fix from these, answer
/// alike on both.
pub proof fn lemma_same_inputs_same_results(
    t1: Tokenizer,
    t2: Tokenizer,
    vocab: Seq<(Seq<char>, u32)>,
    merges: Seq<Seq<Seq<char>>>,
    specials: Seq<Seq<char>>,
    pattern: Seq<char>,
)
    requires
        t1.built_from(vocab, merges, specials, pattern),
        t2.built_from(vocab, merges, specials, pattern),
        valid_config(vocab, merges, specials, pattern),
        merges.len() <= usize::MAX,
    ensures
        t1.vocab() == t2.vocab(),
        t1.special_set() == t2.special_set(),
        forall|text: Seq<char>| #[trigger] t1.splits(text) == t2.splits(text) && t1.encode_spec(text) == t2.encode_spec(text),
        forall|tokens: Seq<u32>| #[trigger] t1.decode_spec(tokens) == t2.decode_spec(tokens),
        t1.unitrim_spec() == t2.unitrim_spec(),
{
    assert forall|w: Seq<char>| #[trigger] lookup(t1.special_ids(), w) == lookup(t2.special_ids(), w) by {
        lemma_built_tables(t1, vocab, merges, specials, pattern, w, 0, w);
        lemma_built_tables(t2, vocab, merges, specials, pattern, w, 0, w);
        if !specials.contains(w) {
            assert(!has_key(t1.special_ids(), w));
            assert(!has_key(t2.special_ids(), w));
        }
    }
    assert(t1.special_set() =~= t2.special_set()) by {
        assert forall|w: Seq<char>| t1.special_set().contains(w) == t2.special_set().contains(w) by {
            lemma_built_tables(t1, vocab, merges, specials, pattern, w, 0, w);
            lemma_built_tables(t2, vocab, merges, specials, pattern, w, 0, w);
        }
    }
    assert forall|ws: Seq<Seq<char>>| #[trigger] t1.words_ids(ws) == t2.words_ids(ws) by {
        lemma_same_words_ids(t1, t2, ws);
    }
    assert forall|text: Seq<char>| #[trigger] t1.splits(text) == t2.splits(text) && t1.encode_spec(text) == t2.encode_spec(text) by {
        match crate::split::split_words_spec(t1.special_set(), t1.pattern(), text) {
            Some(ws) => {
                assert(t1.words_ids(ws) == t2.words_ids(ws));
            },
            None => {},
        }
    }
    lemma_same_unitrim(t1, t2, t1.vocab().len() as int);
}

proof fn lemma_same_words_ids(t1: Tokenizer, t2: Tokenizer, ws: Seq<Seq<char>>)
    requires
        t1.vocab() == t2.vocab(),
        t1.ranks() == t2.ranks(),
        t1.runes() == t2.runes(),
        forall|w: Seq<char>| #[trigger] lookup(t1.special_ids(), w) == lookup(t2.special_ids(), w),
    ensures
        t1.words_ids(ws) == t2.words_ids(ws),
    decreases ws.len(),
{
    if ws.len() > 0 {
        lemma_same_words_ids(t1, t2, ws.drop_last());
        assert(lookup(t1.special_ids(), ws.last()) == lookup(t2.special_ids(), ws.last()));
    }
}

proof fn lemma_same_unitrim(t1: Tokenizer, t2: Tokenizer, n: int)
    requires
        t1.id_strings() == t2.id_strings(),
        t1.runes() == t2.runes(),
    ensures
        t1.unitrim_upto(n) == t2.unitrim_upto(n),
    decreases n,
{
    if n > 0 {
        lemma_same_unitrim(t1, t2, n - 1);
    }
}

/// Building the vocabulary keeps each key once and loses none.
proof fn lemma_vocab_keys(vocab: Seq<(Seq<char>, u32)>)
    ensures
        keys_unique(vocab_entries(vocab)),
        forall|q: Seq<char>| #[trigger] has_key(vocab_entries(vocab), q) == exists|i: int| 0 <= i < vocab.len() && #[trigger] vocab[i].0 == q,
    decreases vocab.len(),
{
    if vocab.len() > 0 {
        let d = vocab.drop_last();
        lemma_vocab_keys(d);
        let e0 = vocab_entries(d);
        let l = vocab.len() - 1;
        assert(vocab[l] == vocab.last());
        assert forall|q: Seq<char>| #[trigger] has_key(vocab_entries(vocab), q) == exists|i: int| 0 <= i < vocab.len() && #[trigger] vocab[i].0 == q by {
            lemma_lookup_insert(e0, vocab.last().0, vocab.last().1, q);
            if exists|i: int| 0 <= i < vocab.len() && #[trigger] vocab[i].0 == q {
                let i = choose|i: int| 0 <= i < vocab.len() && #[trigger] vocab[i].0 == q;
                if i < l {
                    assert(d[i].0 == q);
                }
            }
            if exists|i: int| 0 <= i < d.len() && #[trigger] d[i].0 == q {
                let i = choose|i: int| 0 <= i < d.len() && #[trigger] d[i].0 == q;
                assert(vocab[i].0 == q);
            }
        }
        lemma_lookup_insert(e0, vocab.last().0, vocab.last().1, vocab.last().0);
    }
}

/// The number of tokens is the number of distinct keys in the vocabulary
/// that building was given.
pub proof fn lemma_token_count(
    t: Tokenizer,
    vocab: Seq<(Seq<char>, u32)>,
    merges: Seq<Seq<Seq<char>>>,
    specials: Seq<Seq<char>>,
    pattern: Seq<char>,
)
    requires
        t.built_from(vocab, merges, specials, pattern),
    ensures
        t.vocab().len() == vocab.map_values(|p: (Seq<char>, u32)| p.0).to_set().len(),
{
    let e = vocab_entries(vocab);
    lemma_vocab_keys(vocab);
    let ke = e.map_values(|p: (Seq<char>, u32)| p.0);
    let kv = vocab.map_values(|p: (Seq<char>, u32)| p.0);
    assert(ke.no_duplicates()) by {
        assert forall|i: int, j: int| 0 <= i < ke.len() && 0 <= j < ke.len() && i != j implies ke[i] != ke[j] by {
            assert(ke[i] == e[i].0 && ke[j] == e[j].0);
        }
    }
    ke.unique_seq_to_set();
    assert(ke.to_set() =~= kv.to_set()) by {
        assert forall|q: Seq<char>| ke.to_set().contains(q) == kv.to_set().contains(q) by {
            if ke.contains(q) {
                let i = choose|i: int| 0 <= i < ke.len() && ke[i] == q;
                assert(e[i].0 == q);
                assert(has_key(e, q));
                let j = choose|j: int| 0 <= j < vocab.len() && #[trigger] vocab[j].0 == q;
                assert(kv[j] == q);
            }
            if kv.contains(q) {
                let j = choose|j: int| 0 <= j < kv.len() && kv[j] == q;
                assert(vocab[j].0 == q);
                assert(has_key(e, q));
                let i = choose|i: int| 0 <= i < e.len() && #[trigger] e[i].0 == q;
                assert(ke[i] == q);
            }
        }
    }
}

} // verus!

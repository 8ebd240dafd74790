//! The tokenizer: its tables, how they are built from a vocabulary, merge
//! list, special tokens and splitting pattern, and encoding and decoding.
use vstd::prelude::*;
use vstd::utf8::encode_utf8;
use vstd::string::StringExecFns;
use ahash::AHashMap;
use crate::collections::{
    entries, has_key, id_table, id_table_get, id_table_insert, id_table_new, insert_entry, keys_unique,
    lemma_lookup_insert, lookup, ordered_get, ordered_get_index, ordered_insert, ordered_len, ordered_new,
    ordered_sort_by_key_len, rank_table, rank_table_insert, rank_table_new, sorted_by_key_bytes, OrderedIds,
};
use crate::bytes::{build_byte_tables, byte_table, char_table};
use crate::text::{lemma_ascii_code, chars_of, decimal, decimal_chars, has_hex_prefix, occurs_in, occurs_in_exec, parse_hex, parse_hex_exec, string_of};
use crate::trie::SpecialsTreeNode;
use crate::walk_check::split_pieces_checked;
use crate::split::{pieces_words, regex_valid, split_halts, split_words_exec, split_words_spec, ascii_specials, lemma_ascii_specials_halt};
use vstd::utf8::is_ascii_chars;
use crate::bpe::{bpe_ids, to_bpe};
use crate::bytes::byte_char;
use vstd::utf8::is_scalar;

verus! {

/// The entries of an ordered map after inserting the pairs one by one.
pub open spec fn vocab_entries(pairs: Seq<(Seq<char>, u32)>) -> Seq<(Seq<char>, u32)>
    decreases pairs.len(),
{
    if pairs.len() == 0 {
        seq![]
    } else {
        insert_entry(vocab_entries(pairs.drop_last()), pairs.last().0, pairs.last().1)
    }
}

/// The special tokens with their vocabulary ids, in first-seen order.
pub open spec fn special_entries(vocab: Seq<(Seq<char>, u32)>, specials: Seq<Seq<char>>) -> Seq<(Seq<char>, u32)>
    decreases specials.len(),
{
    if specials.len() == 0 {
        seq![]
    } else {
        insert_entry(special_entries(vocab, specials.drop_last()), specials.last(), lookup(vocab, specials.last())->0)
    }
}

/// The pieces of a merge joined into one string.
pub open spec fn joined(parts: Seq<Seq<char>>) -> Seq<char>
    decreases parts.len(),
{
    if parts.len() == 0 {
        seq![]
    } else {
        joined(parts.drop_last()) + parts.last()
    }
}

/// The merge table: each merge's joined string maps to its position in the
/// list; a string that occurs twice keeps the later position.
pub open spec fn merge_ranks(merges: Seq<Seq<Seq<char>>>) -> Map<Seq<char>, usize>
    decreases merges.len(),
{
    if merges.len() == 0 {
        Map::empty()
    } else {
        merge_ranks(merges.drop_last()).insert(joined(merges.last()), (merges.len() - 1) as usize)
    }
}

/// The id-to-string table: each id maps to the last vocabulary entry that
/// has it.
pub open spec fn id_strings(vocab: Seq<(Seq<char>, u32)>) -> Map<u32, Seq<char>>
    decreases vocab.len(),
{
    if vocab.len() == 0 {
        Map::empty()
    } else {
        id_strings(vocab.drop_last()).insert(vocab.last().1, vocab.last().0)
    }
}

/// The value written after the `0x` of a byte-rune entry.
pub open spec fn rune_value(key: Seq<char>) -> u32 {
    parse_hex(key.skip(2), u32::MAX as nat)->0 as u32
}

/// The byte runes: each vocabulary entry whose key starts with `0x`, keyed
/// by the decimal rendering of the value written after it.
pub open spec fn rune_entries(vocab: Seq<(Seq<char>, u32)>) -> Seq<(Seq<char>, u32)>
    decreases vocab.len(),
{
    if vocab.len() == 0 {
        seq![]
    } else if has_hex_prefix(vocab.last().0) {
        insert_entry(rune_entries(vocab.drop_last()), decimal(rune_value(vocab.last().0) as nat), vocab.last().1)
    } else {
        rune_entries(vocab.drop_last())
    }
}

/// Whether some vocabulary key starts with `0x`.
pub open spec fn has_runes(vocab: Seq<(Seq<char>, u32)>) -> bool {
    exists|i: int| 0 <= i < vocab.len() && has_hex_prefix(#[trigger] vocab[i].0)
}

/// The keys of ordered entries, as a set.
pub open spec fn key_set(e: Seq<(Seq<char>, u32)>) -> Set<Seq<char>> {
    Set::new(|k: Seq<char>| has_key(e, k))
}

/// A pair by the views of its parts.
pub open spec fn pair_view(p: (String, u32)) -> (Seq<char>, u32) {
    (p.0@, p.1)
}

/// Inputs that building a tokenizer accepts: every special token and every
/// joined merge is in the vocabulary, every `0x` key is followed by a
/// hexadecimal `u32`, and the pattern compiles.
pub open spec fn valid_config(
    vocab: Seq<(Seq<char>, u32)>,
    merges: Seq<Seq<Seq<char>>>,
    specials: Seq<Seq<char>>,
    pattern: Seq<char>,
) -> bool {
    let v = vocab_entries(vocab);
    &&& forall|i: int| 0 <= i < specials.len() ==> has_key(v, #[trigger] specials[i])
    &&& forall|i: int| 0 <= i < merges.len() ==> has_key(v, joined(#[trigger] merges[i]))
    &&& forall|i: int| 0 <= i < v.len() && has_hex_prefix(#[trigger] v[i].0) ==> parse_hex(v[i].0.skip(2), u32::MAX as nat) is Some
    &&& regex_valid(pattern)
}

/// The merges by the views of their parts.
pub open spec fn merges_view(merges: Seq<Vec<String>>) -> Seq<Seq<Seq<char>>> {
    merges.map_values(|m: Vec<String>| m@.map_values(|s: String| s@))
}

/// The strings by their views.
pub open spec fn strings_view(v: Seq<String>) -> Seq<Seq<char>> {
    v.map_values(|s: String| s@)
}

fn build_encoder(vocab: &Vec<(String, u32)>) -> (m: OrderedIds)
    ensures
        entries(m) == vocab_entries(vocab@.map_values(|p: (String, u32)| pair_view(p))),
        keys_unique(entries(m)),
{
    let ghost pv = vocab@.map_values(|p: (String, u32)| pair_view(p));
    let mut m = ordered_new();
    let n = vocab.len();
    let mut i: usize = 0;
    while i < n
        invariant
            n == vocab@.len(),
            i <= n,
            pv == vocab@.map_values(|p: (String, u32)| pair_view(p)),
            entries(m) == vocab_entries(pv.take(i as int)),
            keys_unique(entries(m)),
        decreases n - i,
    {
        let (k, v) = (vocab[i].0.clone(), vocab[i].1);
        proof {
            assert(pv.take(i + 1).drop_last() == pv.take(i as int));
            assert(pv.take(i + 1).last() == (k@, v));
            lemma_lookup_insert(entries(m), k@, v, seq![]);
        }
        ordered_insert(&mut m, k, v);
        i = i + 1;
    }
    assert(pv.take(n as int) == pv);
    m
}

fn joined_exec(parts: &Vec<String>) -> (r: String)
    ensures
        r@ == joined(strings_view(parts@)),
{
    let ghost sv = strings_view(parts@);
    let mut r = String::new();
    let mut i: usize = 0;
    while i < parts.len()
        invariant
            i <= parts@.len(),
            sv == strings_view(parts@),
            r@ == joined(sv.take(i as int)),
        decreases parts@.len() - i,
    {
        assert(sv.take(i + 1).drop_last() == sv.take(i as int));
        r.append(parts[i].as_str());
        i = i + 1;
    }
    assert(sv.take(parts@.len() as int) == sv);
    r
}

fn build_ranks(merges: &Vec<Vec<String>>) -> (m: AHashMap<String, usize>)
    ensures
        rank_table(m) == merge_ranks(merges_view(merges@)),
{
    let ghost mv = merges_view(merges@);
    let mut m = rank_table_new();
    let mut i: usize = 0;
    while i < merges.len()
        invariant
            i <= merges@.len(),
            mv == merges_view(merges@),
            rank_table(m) == merge_ranks(mv.take(i as int)),
        decreases merges@.len() - i,
    {
        let key = joined_exec(&merges[i]);
        assert(mv.take(i + 1).drop_last() == mv.take(i as int));
        assert(mv.take(i + 1).last() == strings_view(merges@[i as int]@));
        rank_table_insert(&mut m, key, i);
        i = i + 1;
    }
    assert(mv.take(merges@.len() as int) == mv);
    assert(rank_table(m) =~= merge_ranks(mv));
    m
}

fn build_specials(encoder: &OrderedIds, specials: &Vec<String>) -> (m: OrderedIds)
    requires
        forall|i: int| 0 <= i < specials@.len() ==> has_key(entries(*encoder), #[trigger] specials@[i]@),
    ensures
        entries(m) == special_entries(entries(*encoder), strings_view(specials@)),
        keys_unique(entries(m)),
{
    let ghost sv = strings_view(specials@);
    let mut m = ordered_new();
    let mut i: usize = 0;
    while i < specials.len()
        invariant
            i <= specials@.len(),
            sv == strings_view(specials@),
            forall|i: int| 0 <= i < specials@.len() ==> has_key(entries(*encoder), #[trigger] specials@[i]@),
            entries(m) == special_entries(entries(*encoder), sv.take(i as int)),
            keys_unique(entries(m)),
        decreases specials@.len() - i,
    {
        assert(has_key(entries(*encoder), specials@[i as int]@));
        let id = ordered_get(encoder, specials[i].as_str()).unwrap();
        assert(sv.take(i + 1).drop_last() == sv.take(i as int));
        assert(sv.take(i + 1).last() == specials@[i as int]@);
        proof {
            lemma_lookup_insert(entries(m), specials@[i as int]@, id, seq![]);
        }
        ordered_insert(&mut m, specials[i].clone(), id);
        i = i + 1;
    }
    assert(sv.take(specials@.len() as int) == sv);
    m
}

proof fn lemma_has_runes_take(vocab: Seq<(Seq<char>, u32)>, k: int)
    requires
        0 <= k < vocab.len(),
    ensures
        has_runes(vocab.take(k + 1)) == (has_runes(vocab.take(k)) || has_hex_prefix(vocab[k].0)),
{
    let t1 = vocab.take(k + 1);
    if has_runes(t1) {
        let i = choose|i: int| 0 <= i < t1.len() && has_hex_prefix(#[trigger] t1[i].0);
        if i < k {
            assert(vocab.take(k)[i] == t1[i]);
        }
    }
    if has_runes(vocab.take(k)) {
        let i = choose|i: int| 0 <= i < k && has_hex_prefix(#[trigger] vocab.take(k)[i].0);
        assert(t1[i] == vocab.take(k)[i]);
    }
    if has_hex_prefix(vocab[k].0) {
        assert(t1[k] == vocab[k]);
    }
}

fn build_id_and_runes(encoder: &OrderedIds) -> (r: (AHashMap<u32, String>, Option<OrderedIds>))
    requires
        forall|i: int| 0 <= i < entries(*encoder).len() && has_hex_prefix(#[trigger] entries(*encoder)[i].0)
            ==> parse_hex(entries(*encoder)[i].0.skip(2), u32::MAX as nat) is Some,
    ensures
        id_table(r.0) == id_strings(entries(*encoder)),
        has_runes(entries(*encoder)) ==> (r.1 matches Some(m) && entries(m) == rune_entries(entries(*encoder)) && keys_unique(entries(m))),
        !has_runes(entries(*encoder)) ==> r.1 is None,
{
    let ghost ev = entries(*encoder);
    let mut decoder = id_table_new();
    let mut runes = ordered_new();
    let mut found = false;
    let n = ordered_len(encoder);
    let mut i: usize = 0;
    while i < n
        invariant
            n == ev.len(),
            i <= n,
            ev == entries(*encoder),
            forall|i: int| 0 <= i < ev.len() && has_hex_prefix(#[trigger] ev[i].0)
                ==> parse_hex(ev[i].0.skip(2), u32::MAX as nat) is Some,
            id_table(decoder) == id_strings(ev.take(i as int)),
            entries(runes) == rune_entries(ev.take(i as int)),
            keys_unique(entries(runes)),
            found == has_runes(ev.take(i as int)),
        decreases n - i,
    {
        let (key, value) = ordered_get_index(encoder, i).unwrap();
        let ghost t = ev.take(i as int);
        assert(ev.take(i + 1).drop_last() == t);
        assert(ev.take(i + 1).last() == ev[i as int]);
        proof {
            lemma_has_runes_take(ev, i as int);
        }
        let chars = chars_of(key.as_str());
        if chars.len() >= 2 && chars[0] == '0' && chars[1] == 'x' {
            found = true;
            let rest: Vec<char> = crate::split::skip_chars(&chars, 2);
            assert(has_hex_prefix(ev[i as int].0));
            let byte = parse_hex_exec(rest.as_slice(), u32::MAX).unwrap();
            let name = string_of(decimal_chars(byte).as_slice());
            proof {
                lemma_lookup_insert(entries(runes), name@, *value, seq![]);
            }
            ordered_insert(&mut runes, name, *value);
        }
        id_table_insert(&mut decoder, *value, key.clone());
        proof {
            assert(id_table(decoder) =~= id_strings(ev.take(i + 1)));
        }
        i = i + 1;
    }
    assert(ev.take(n as int) == ev);
    if found {
        (decoder, Some(runes))
    } else {
        (decoder, None)
    }
}

fn build_tree(specials: &OrderedIds) -> (t: SpecialsTreeNode)
    ensures
        t.models(seq![], key_set(entries(*specials))),
{
    let ghost ev = entries(*specials);
    let mut root = SpecialsTreeNode::root();
    let n = ordered_len(specials);
    let mut i: usize = 0;
    assert(key_set(ev.take(0)) =~= Set::<Seq<char>>::empty());
    while i < n
        invariant
            n == ev.len(),
            i <= n,
            ev == entries(*specials),
            root.models(seq![], key_set(ev.take(i as int))),
        decreases n - i,
    {
        let (key, _) = ordered_get_index(specials, i).unwrap();
        let chars = chars_of(key.as_str());
        assert(chars@.take(0) == Seq::<char>::empty());
        root.insert(&chars, 0, key, Ghost(key_set(ev.take(i as int))));
        proof {
            assert(key_set(ev.take(i + 1)) =~= key_set(ev.take(i as int)).insert(ev[i as int].0)) by {
                assert forall|k: Seq<char>| key_set(ev.take(i + 1)).contains(k) == key_set(ev.take(i as int)).insert(ev[i as int].0).contains(k) by {
                    if has_key(ev.take(i + 1), k) {
                        let j = choose|j: int| 0 <= j < ev.take(i + 1).len() && #[trigger] ev.take(i + 1)[j].0 == k;
                        if j < i {
                            assert(ev.take(i as int)[j].0 == k);
                        }
                    }
                    if has_key(ev.take(i as int), k) {
                        let j = choose|j: int| 0 <= j < ev.take(i as int).len() && #[trigger] ev.take(i as int)[j].0 == k;
                        assert(ev.take(i + 1)[j].0 == k);
                    }
                    if k == ev[i as int].0 {
                        assert(ev.take(i + 1)[i as int].0 == k);
                    }
                }
            }
        }
        i = i + 1;
    }
    assert(ev.take(n as int) == ev);
    root
}

/// The text that byte-pair merging works on: without byte runes, each UTF-8
/// byte of the word stands for itself by its character in the byte table;
/// with byte runes, the word as it is.
pub open spec fn to_unicode_spec(byte_runes: bool, word: Seq<char>) -> Seq<char> {
    if byte_runes {
        word
    } else {
        encode_utf8(word).map_values(|b: u8| byte_char(b as nat))
    }
}

/// A byte-pair-encoding tokenizer.
pub struct Tokenizer {
    specials: OrderedIds,
    specials_tree: SpecialsTreeNode,
    split_regex: String,
    bpe_ranks: AHashMap<String, usize>,
    encoder: OrderedIds,
    decoder: AHashMap<u32, String>,
    char_to_byte: OrderedIds,
    byte_to_char: AHashMap<u32, String>,
    bytes_encoder: Option<OrderedIds>,
}

impl Tokenizer {
    #[verifier::type_invariant]
    spec fn well_formed(self) -> bool {
        &&& keys_unique(entries(self.encoder))
        &&& keys_unique(entries(self.specials))
        &&& self.specials_tree.models(seq![], key_set(entries(self.specials)))
        &&& id_table(self.byte_to_char) == byte_table()
        &&& char_table(entries(self.char_to_byte))
        &&& (self.bytes_encoder matches Some(r) ==> keys_unique(entries(r)))
        &&& regex_valid(self.split_regex@)
    }

    /// The vocabulary, in order.
    pub closed spec fn vocab(self) -> Seq<(Seq<char>, u32)> {
        entries(self.encoder)
    }

    /// The special tokens with their ids, ordered by length.
    pub closed spec fn special_ids(self) -> Seq<(Seq<char>, u32)> {
        entries(self.specials)
    }

    /// The set of special tokens.
    pub open spec fn special_set(self) -> Set<Seq<char>> {
        key_set(self.special_ids())
    }

    /// The merge table.
    pub closed spec fn ranks(self) -> Map<Seq<char>, usize> {
        rank_table(self.bpe_ranks)
    }

    /// The id-to-string table.
    pub closed spec fn id_strings(self) -> Map<u32, Seq<char>> {
        id_table(self.decoder)
    }

    /// The byte runes, when the vocabulary has any.
    pub closed spec fn runes(self) -> Option<Seq<(Seq<char>, u32)>> {
        match self.bytes_encoder {
            Some(r) => Some(entries(r)),
            None => None,
        }
    }

    /// The splitting pattern.
    pub closed spec fn pattern(self) -> Seq<char> {
        self.split_regex@
    }

    /// The tables are those built from the given vocabulary, merges,
    /// special tokens and pattern: the vocabulary with later ids for repeated
    /// tokens, the special tokens with their ids stably ordered by length,
    /// the merge table, the id-to-string table, the byte runes when some
    /// token starts with `0x`, and the pattern.
    pub open spec fn built_from(
        self,
        vocab: Seq<(Seq<char>, u32)>,
        merges: Seq<Seq<Seq<char>>>,
        specials: Seq<Seq<char>>,
        pattern: Seq<char>,
    ) -> bool {
        &&& self.vocab() == vocab_entries(vocab)
        &&& sorted_by_key_bytes(special_entries(self.vocab(), specials), self.special_ids())
        &&& self.ranks() == merge_ranks(merges)
        &&& self.id_strings() == id_strings(self.vocab())
        &&& self.runes() == (if has_runes(self.vocab()) { Some(rune_entries(self.vocab())) } else { None })
        &&& self.pattern() == pattern
    }

    /// Whether the inputs are ones that building a tokenizer accepts.
    pub fn is_valid_config(vocab: &Vec<(String, u32)>, merges: &Vec<Vec<String>>, specials: &Vec<String>, split_regex: &String) -> (r: bool)
        ensures
            r == valid_config(vocab@.map_values(|p: (String, u32)| pair_view(p)), merges_view(merges@), strings_view(specials@), split_regex@),
    {
        let ghost pv = vocab@.map_values(|p: (String, u32)| pair_view(p));
        let ghost v = vocab_entries(pv);
        let ghost mv = merges_view(merges@);
        let ghost sv = strings_view(specials@);
        let encoder = build_encoder(vocab);
        let mut i: usize = 0;
        while i < specials.len()
            invariant
                i <= specials@.len(),
                sv == strings_view(specials@),
                v == entries(encoder),
                v == vocab_entries(vocab@.map_values(|p: (String, u32)| pair_view(p))),
                forall|j: int| 0 <= j < i ==> has_key(v, #[trigger] sv[j]),
            decreases specials@.len() - i,
        {
            if ordered_get(&encoder, specials[i].as_str()).is_none() {
                assert(!has_key(v, sv[i as int]));
                return false;
            }
            i = i + 1;
        }
        let mut i: usize = 0;
        while i < merges.len()
            invariant
                i <= merges@.len(),
                mv == merges_view(merges@),
                v == entries(encoder),
                v == vocab_entries(vocab@.map_values(|p: (String, u32)| pair_view(p))),
                sv == strings_view(specials@),
                forall|j: int| 0 <= j < sv.len() ==> has_key(v, #[trigger] sv[j]),
                forall|j: int| 0 <= j < i ==> has_key(v, joined(#[trigger] mv[j])),
            decreases merges@.len() - i,
        {
            let key = joined_exec(&merges[i]);
            assert(mv[i as int] == strings_view(merges@[i as int]@));
            if ordered_get(&encoder, key.as_str()).is_none() {
                assert(!has_key(v, joined(mv[i as int])));
                return false;
            }
            i = i + 1;
        }
        let n = ordered_len(&encoder);
        let mut i: usize = 0;
        while i < n
            invariant
                i <= n,
                n == v.len(),
                v == entries(encoder),
                v == vocab_entries(vocab@.map_values(|p: (String, u32)| pair_view(p))),
                sv == strings_view(specials@),
                mv == merges_view(merges@),
                forall|j: int| 0 <= j < sv.len() ==> has_key(v, #[trigger] sv[j]),
                forall|j: int| 0 <= j < mv.len() ==> has_key(v, joined(#[trigger] mv[j])),
                forall|j: int| 0 <= j < i && has_hex_prefix(#[trigger] v[j].0) ==> parse_hex(v[j].0.skip(2), u32::MAX as nat) is Some,
            decreases n - i,
        {
            let (key, _) = ordered_get_index(&encoder, i).unwrap();
            let chars = chars_of(key.as_str());
            if chars.len() >= 2 && chars[0] == '0' && chars[1] == 'x' {
                let rest: Vec<char> = crate::split::skip_chars(&chars, 2);
                if parse_hex_exec(rest.as_slice(), u32::MAX).is_none() {
                    assert(has_hex_prefix(v[i as int].0));
                    return false;
                }
            }
            i = i + 1;
        }
        crate::split::regex_compiles(split_regex.as_str())
    }

    /// Builds a tokenizer when the inputs are ones that building accepts,
    /// and gives `None` otherwise.
    pub fn try_new(vocab: Vec<(String, u32)>, merges: Vec<Vec<String>>, specials: Vec<String>, split_regex: String) -> (r: Option<Tokenizer>)
        ensures
            r is Some == valid_config(vocab@.map_values(|p: (String, u32)| pair_view(p)), merges_view(merges@), strings_view(specials@), split_regex@),
            r matches Some(t) ==> t.built_from(vocab@.map_values(|p: (String, u32)| pair_view(p)), merges_view(merges@), strings_view(specials@), split_regex@),
    {
        if Self::is_valid_config(&vocab, &merges, &specials, &split_regex) {
            Some(Self::new(vocab, merges, specials, split_regex))
        } else {
            None
        }
    }

    /// Builds a tokenizer from its vocabulary (pairs of token and id, in
    /// order), its merges (each a list of strings whose join is a token),
    /// its special tokens and its splitting pattern.
    pub fn new(vocab: Vec<(String, u32)>, merges: Vec<Vec<String>>, specials: Vec<String>, split_regex: String) -> (t: Tokenizer)
        requires
            valid_config(vocab@.map_values(|p: (String, u32)| pair_view(p)), merges_view(merges@), strings_view(specials@), split_regex@),
        ensures
            t.built_from(vocab@.map_values(|p: (String, u32)| pair_view(p)), merges_view(merges@), strings_view(specials@), split_regex@),
    {
        let (byte_decoder, byte_encoder) = build_byte_tables();
        let encoder = build_encoder(&vocab);
        assert forall|i: int| 0 <= i < specials@.len() implies has_key(entries(encoder), #[trigger] specials@[i]@) by {
            assert(strings_view(specials@)[i] == specials@[i]@);
        }
        let mut specials_map = build_specials(&encoder, &specials);
        let ghost unsorted = entries(specials_map);
        ordered_sort_by_key_len(&mut specials_map);
        let (decoder, bytes_encoder) = build_id_and_runes(&encoder);
        let bpe_ranks = build_ranks(&merges);
        let specials_tree = build_tree(&specials_map);
        Tokenizer {
            specials: specials_map,
            specials_tree,
            split_regex,
            bpe_ranks,
            encoder,
            decoder,
            char_to_byte: byte_encoder,
            byte_to_char: byte_decoder,
            bytes_encoder,
        }
    }
}

impl Tokenizer {
    /// The ids for one word: a special token's id, or the byte-pair ids of
    /// its text.
    pub open spec fn word_ids(self, word: Seq<char>) -> Option<Seq<u32>> {
        match lookup(self.special_ids(), word) {
            Some(id) => Some(seq![id]),
            None => bpe_ids(self.ranks(), self.vocab(), self.runes(), to_unicode_spec(self.runes() is Some, word)),
        }
    }

    /// The ids for a sequence of words, one after another.
    pub open spec fn words_ids(self, words: Seq<Seq<char>>) -> Option<Seq<u32>>
        decreases words.len(),
    {
        if words.len() == 0 {
            Some(seq![])
        } else {
            match (self.words_ids(words.drop_last()), self.word_ids(words.last())) {
                (Some(front), Some(ids)) => Some(front + ids),
                _ => None,
            }
        }
    }

    /// Splitting `text` ends.
    pub open spec fn splits(self, text: Seq<char>) -> bool {
        split_halts(self.special_set(), text)
    }

    /// The token ids of `text`: its words, each encoded. `None` when the
    /// pattern fails, a word is empty, or a byte rune is missing.
    pub open spec fn encode_spec(self, text: Seq<char>) -> Option<Seq<u32>> {
        match split_words_spec(self.special_set(), self.pattern(), text) {
            Some(words) => self.words_ids(words),
            None => None,
        }
    }

    fn to_unicode(&self, word: &String) -> (r: Vec<char>)
        ensures
            r@ == to_unicode_spec(self.runes() is Some, word@),
    {
        proof {
            use_type_invariant(self);
        }
        if self.bytes_encoder.is_some() {
            return chars_of(word.as_str());
        }
        let bytes = word.as_str().as_bytes();
        let ghost target = to_unicode_spec(false, word@);
        let mut out: Vec<char> = Vec::new();
        let mut k: usize = 0;
        while k < bytes.len()
            invariant
                k <= bytes@.len(),
                bytes@ == encode_utf8(word@),
                id_table(self.byte_to_char) == byte_table(),
                out@ == bytes@.take(k as int).map_values(|b: u8| byte_char(b as nat)),
            decreases bytes@.len() - k,
        {
            let b = bytes[k] as u32;
            assert(byte_table().contains_key(b));
            let s = id_table_get(&self.byte_to_char, b).unwrap();
            let cs = chars_of(s.as_str());
            assert(cs@ == seq![byte_char(b as nat)]);
            out.push(cs[0]);
            assert(bytes@.take(k + 1) == bytes@.take(k as int).push(bytes@[k as int]));
            assert(bytes@.take(k + 1).map_values(|b: u8| byte_char(b as nat)) == bytes@.take(k as int).map_values(|b: u8| byte_char(b as nat)).push(byte_char(bytes@[k as int] as nat)));
            k = k + 1;
        }
        assert(bytes@.take(bytes@.len() as int) == bytes@);
        out
    }

    fn encode_words(&self, data: &str) -> (r: Option<Vec<u32>>)
        requires
            self.splits(data@),
        ensures
            r matches Some(v) ==> self.encode_spec(data@) == Some(v@),
            r is None ==> self.encode_spec(data@) is None,
    {
        proof {
            use_type_invariant(self);
        }
        let chars = chars_of(data);
        let words = match split_words_exec(&self.specials_tree, self.split_regex.as_str(), &chars, Ghost(self.special_set())) {
            Some(w) => w,
            None => return None,
        };
        self.words_to_ids(&words)
    }

    /// The ids of the words, one after another; `None` when one has none.
    fn words_to_ids(&self, words: &Vec<String>) -> (r: Option<Vec<u32>>)
        ensures
            r matches Some(v) ==> self.words_ids(words@.map_values(|x: String| x@)) == Some(v@),
            r is None ==> self.words_ids(words@.map_values(|x: String| x@)) is None,
    {
        proof {
            use_type_invariant(self);
        }
        let ghost ws = words@.map_values(|x: String| x@);
        let mut out: Vec<u32> = Vec::new();
        let mut k: usize = 0;
        assert(ws.take(0) == Seq::<Seq<char>>::empty());
        while k < words.len()
            invariant
                k <= words@.len(),
                ws == words@.map_values(|x: String| x@),
                self.words_ids(ws.take(k as int)) == Some(out@),
            decreases words@.len() - k,
        {
            let ghost before = out@;
            assert(ws.take(k + 1).drop_last() == ws.take(k as int));
            assert(ws.take(k + 1).last() == words@[k as int]@);
            match ordered_get(&self.specials, words[k].as_str()) {
                Some(id) => {
                    out.push(id);
                    assert(out@ == before + seq![id]);
                },
                None => {
                    let fragment = self.to_unicode(&words[k]);
                    if fragment.len() == 0 {
                        proof {
                            assert(self.words_ids(ws.take(k + 1)) is None);
                            lemma_words_ids_prefix_none(*self, ws, k + 1);
                        }
                        return None;
                    }
                    match to_bpe(&self.bpe_ranks, &self.encoder, &self.bytes_encoder, &fragment) {
                        Some(ids) => {
                            let mut j: usize = 0;
                            while j < ids.len()
                                invariant
                                    j <= ids@.len(),
                                    out@ == before + ids@.take(j as int),
                                decreases ids@.len() - j,
                            {
                                out.push(ids[j]);
                                assert(ids@.take(j + 1) == ids@.take(j as int).push(ids@[j as int]));
                                j = j + 1;
                            }
                            assert(ids@.take(ids@.len() as int) == ids@);
                        },
                        None => {
                            proof {
                                assert(self.words_ids(ws.take(k + 1)) is None);
                                lemma_words_ids_prefix_none(*self, ws, k + 1);
                            }
                            return None;
                        },
                    }
                },
            }
            k = k + 1;
        }
        assert(ws.take(words@.len() as int) == ws);
        Some(out)
    }

    /// The token ids of `data`: it is split into words, with special tokens
    /// cut out whole and the text between them split by the pattern; a
    /// special token gives its own id, any other word the ids of its
    /// byte-pair merged symbols.
    pub fn encode(&self, data: &str) -> (r: Vec<u32>)
        requires
            self.splits(data@),
            self.encode_spec(data@) is Some,
        ensures
            r@ == self.encode_spec(data@)->0,
    {
        self.encode_words(data).unwrap()
    }

    /// The token ids of `data`, or `None` exactly when splitting it does not
    /// end or encoding it fails: the pattern fails, a word is empty, or a
    /// needed byte rune is missing. Whether splitting ends is decided by
    /// walking until the walk ends, goes back past the start, or comes back
    /// to a step it took before.
    pub fn encode_checked(&self, data: &str) -> (r: Option<Vec<u32>>)
        ensures
            r is None == (!self.splits(data@) || self.encode_spec(data@) is None),
            r matches Some(v) ==> self.encode_spec(data@) == Some(v@),
    {
        proof {
            use_type_invariant(self);
        }
        if self.specials_are_ascii() {
            return self.encode_words(data);
        }
        let ghost names = self.special_ids().map_values(|e: (Seq<char>, u32)| e.0);
        proof {
            assert forall|s: Seq<char>| #[trigger] self.special_set().contains(s) implies names.contains(s) by {
                let j = choose|j: int| 0 <= j < self.special_ids().len() && #[trigger] self.special_ids()[j].0 == s;
                assert(names[j] == s);
            }
        }
        let chars = chars_of(data);
        let pieces = match split_pieces_checked(&self.specials_tree, &chars, Ghost(self.special_set()), Ghost(names)) {
            Some(p) => p,
            None => return None,
        };
        let words = match pieces_words(self.split_regex.as_str(), &pieces) {
            Some(w) => w,
            None => return None,
        };
        self.words_to_ids(&words)
    }


    /// of its words is empty, or a needed byte rune is missing.
    pub fn try_encode(&self, data: &str) -> (r: Option<Vec<u32>>)
        requires
            self.splits(data@),
        ensures
            r matches Some(v) ==> self.encode_spec(data@) == Some(v@),
            r is None ==> self.encode_spec(data@) is None,
    {
        self.encode_words(data)
    }
}

proof fn lemma_words_ids_prefix_none(t: Tokenizer, ws: Seq<Seq<char>>, k: int)
    requires
        0 <= k <= ws.len(),
        t.words_ids(ws.take(k)) is None,
    ensures
        t.words_ids(ws) is None,
    decreases ws.len() - k,
{
    if k < ws.len() {
        assert(ws.take(k + 1).drop_last() == ws.take(k));
        lemma_words_ids_prefix_none(t, ws, k + 1);
    } else {
        assert(ws.take(k) == ws);
    }
}

/// The characters with the given codes; `None` when a code is not a Unicode
/// scalar value.
pub open spec fn code_chars(codes: Seq<u32>) -> Option<Seq<char>>
    decreases codes.len(),
{
    if codes.len() == 0 {
        Some(seq![])
    } else {
        match code_chars(codes.drop_last()) {
            Some(front) => if is_scalar(codes.last()) {
                Some(front.push(codes.last() as char))
            } else {
                None
            },
            None => None,
        }
    }
}

/// Decoding so far: the text produced and the byte-rune values still
/// pending. Each token's string is looked up (`None` when it has none); a
/// string starting with `0x` adds the value written after it to the pending
/// values (`None` when that is not a hexadecimal `u32`); any other string
/// first turns the pending values into characters of those codes and then
/// is appended.
pub open spec fn decode_fold(ids: Map<u32, Seq<char>>, tokens: Seq<u32>) -> Option<(Seq<char>, Seq<u32>)>
    decreases tokens.len(),
{
    if tokens.len() == 0 {
        Some((seq![], seq![]))
    } else {
        match decode_fold(ids, tokens.drop_last()) {
            None => None,
            Some((text, pending)) => {
                let t = tokens.last();
                if !ids.contains_key(t) {
                    None
                } else if has_hex_prefix(ids[t]) {
                    match parse_hex(ids[t].skip(2), u32::MAX as nat) {
                        Some(v) => Some((text, pending.push(v as u32))),
                        None => None,
                    }
                } else {
                    match code_chars(pending) {
                        Some(cs) => Some((text + cs + ids[t], seq![])),
                        None => None,
                    }
                }
            },
        }
    }
}

/// The text of the tokens before bytes are restored.
pub open spec fn decode_raw(ids: Map<u32, Seq<char>>, tokens: Seq<u32>) -> Option<Seq<char>> {
    match decode_fold(ids, tokens) {
        Some((text, pending)) => match code_chars(pending) {
            Some(cs) => Some(text + cs),
            None => None,
        },
        None => None,
    }
}

/// The byte that a character of the byte table stands for.
pub open spec fn byte_of(x: char) -> Option<u32> {
    if exists|b: u32| b < 256 && byte_char(b as nat) == x {
        Some(choose|b: u32| b < 256 && byte_char(b as nat) == x)
    } else {
        None
    }
}

/// Each character replaced by the character whose code is the byte it
/// stands for; `None` when a character is not in the byte table.
pub open spec fn unbyte(text: Seq<char>) -> Option<Seq<char>>
    decreases text.len(),
{
    if text.len() == 0 {
        Some(seq![])
    } else {
        match (unbyte(text.drop_last()), byte_of(text.last())) {
            (Some(front), Some(b)) => Some(front.push(b as char)),
            _ => None,
        }
    }
}

proof fn lemma_char_table_lookup(e: Seq<(Seq<char>, u32)>, x: char)
    requires
        char_table(e),
    ensures
        lookup(e, seq![x]) == byte_of(x),
{
    if exists|b: u32| b < 256 && byte_char(b as nat) == x {
        let b = choose|b: u32| b < 256 && byte_char(b as nat) == x;
        assert(lookup(e, seq![byte_char(b as nat)]) == Some(b));
    } else {
        if has_key(e, seq![x]) {
            let b = choose|b: u32| b < 256 && seq![x] == seq![byte_char(b as nat)];
            assert(seq![x][0] == seq![byte_char(b as nat)][0]);
        }
    }
}

proof fn lemma_code_chars_prefix_none(codes: Seq<u32>, k: int)
    requires
        0 <= k <= codes.len(),
        code_chars(codes.take(k)) is None,
    ensures
        code_chars(codes) is None,
    decreases codes.len() - k,
{
    if k < codes.len() {
        assert(codes.take(k + 1).drop_last() == codes.take(k));
        lemma_code_chars_prefix_none(codes, k + 1);
    } else {
        assert(codes.take(k) == codes);
    }
}

/// Appends the characters with the pending codes to `text`; `false` when a
/// code is not a Unicode scalar value.
fn push_codes(text: &mut Vec<char>, codes: &Vec<u32>) -> (ok: bool)
    ensures
        ok ==> (code_chars(codes@) matches Some(cs) && final(text)@ == old(text)@ + cs),
        !ok ==> code_chars(codes@) is None,
{
    let ghost start = text@;
    let mut k: usize = 0;
    assert(codes@.take(0) == Seq::<u32>::empty());
    while k < codes.len()
        invariant
            k <= codes@.len(),
            (code_chars(codes@.take(k as int)) matches Some(cs) && text@ == start + cs),
        decreases codes@.len() - k,
    {
        assert(codes@.take(k + 1).drop_last() == codes@.take(k as int));
        assert(codes@.take(k + 1).last() == codes@[k as int]);
        match char::from_u32(codes[k]) {
            Some(c) => {
                text.push(c);
            },
            None => {
                proof {
                    lemma_code_chars_prefix_none(codes@, k + 1);
                }
                return false;
            },
        }
        k = k + 1;
    }
    assert(codes@.take(codes@.len() as int) == codes@);
    true
}

impl Tokenizer {
    /// The text of `tokens`: each token's string in turn, with runs of
    /// byte-rune tokens turned into the characters whose codes they hold;
    /// without byte runes, each character then replaced by the character
    /// whose code is the byte it stands for. `None` when a token is unknown,
    /// a byte rune does not hold a hexadecimal `u32` or a character code, or
    /// a character is not in the byte table.
    pub open spec fn decode_spec(self, tokens: Seq<u32>) -> Option<Seq<char>> {
        match decode_raw(self.id_strings(), tokens) {
            Some(text) => if self.runes() is Some {
                Some(text)
            } else {
                unbyte(text)
            },
            None => None,
        }
    }

    /// The text of `tokens`, or `None` when it has none.
    pub fn try_decode(&self, tokens: &[u32]) -> (r: Option<String>)
        ensures
            r matches Some(s) ==> self.decode_spec(tokens@) == Some(s@),
            r is None ==> self.decode_spec(tokens@) is None,
    {
        proof {
            use_type_invariant(self);
        }
        let ghost ids = self.id_strings();
        let mut text: Vec<char> = Vec::new();
        let mut pending: Vec<u32> = Vec::new();
        let mut k: usize = 0;
        assert(tokens@.take(0) == Seq::<u32>::empty());
        while k < tokens.len()
            invariant
                k <= tokens@.len(),
                ids == self.id_strings(),
                decode_fold(ids, tokens@.take(k as int)) == Some((text@, pending@)),
            decreases tokens@.len() - k,
        {
            let t = tokens[k];
            assert(tokens@.take(k + 1).drop_last() == tokens@.take(k as int));
            assert(tokens@.take(k + 1).last() == t);
            let s = match id_table_get(&self.decoder, t) {
                Some(s) => s,
                None => {
                    proof {
                        lemma_decode_fold_prefix_none(ids, tokens@, k + 1);
                    }
                    return None;
                },
            };
            let chars = chars_of(s.as_str());
            if chars.len() >= 2 && chars[0] == '0' && chars[1] == 'x' {
                let rest = crate::split::skip_chars(&chars, 2);
                match parse_hex_exec(rest.as_slice(), u32::MAX) {
                    Some(v) => {
                        pending.push(v);
                    },
                    None => {
                        proof {
                            lemma_decode_fold_prefix_none(ids, tokens@, k + 1);
                        }
                        return None;
                    },
                }
            } else {
                if !push_codes(&mut text, &pending) {
                    proof {
                        lemma_decode_fold_prefix_none(ids, tokens@, k + 1);
                    }
                    return None;
                }
                pending = Vec::new();
                let mut j: usize = 0;
                let ghost mid = text@;
                while j < chars.len()
                    invariant
                        j <= chars@.len(),
                        text@ == mid + chars@.take(j as int),
                    decreases chars@.len() - j,
                {
                    text.push(chars[j]);
                    assert(chars@.take(j + 1) == chars@.take(j as int).push(chars@[j as int]));
                    j = j + 1;
                }
                assert(chars@.take(chars@.len() as int) == chars@);
            }
            k = k + 1;
        }
        assert(tokens@.take(tokens@.len() as int) == tokens@);
        if !push_codes(&mut text, &pending) {
            return None;
        }
        if self.bytes_encoder.is_some() {
            return Some(string_of(text.as_slice()));
        }
        let mut out: Vec<char> = Vec::new();
        let mut k: usize = 0;
        assert(text@.take(0) == Seq::<char>::empty());
        while k < text.len()
            invariant
                k <= text@.len(),
                char_table(entries(self.char_to_byte)),
                unbyte(text@.take(k as int)) == Some(out@),
                decode_raw(self.id_strings(), tokens@) == Some(text@),
                self.runes() is None,
            decreases text@.len() - k,
        {
            assert(text@.take(k + 1).drop_last() == text@.take(k as int));
            assert(text@.take(k + 1).last() == text@[k as int]);
            let mut key = String::new();
            key.push(text[k]);
            proof {
                lemma_char_table_lookup(entries(self.char_to_byte), text@[k as int]);
            }
            match ordered_get(&self.char_to_byte, key.as_str()) {
                Some(b) => {
                    let c = char::from_u32(b).unwrap();
                    out.push(c);
                },
                None => {
                    proof {
                        lemma_unbyte_prefix_none(text@, k + 1);
                    }
                    return None;
                },
            }
            k = k + 1;
        }
        assert(text@.take(text@.len() as int) == text@);
        Some(string_of(out.as_slice()))
    }

    /// The text of `tokens`.
    pub fn decode(&self, tokens: &[u32]) -> (r: String)
        requires
            self.decode_spec(tokens@) is Some,
        ensures
            r@ == self.decode_spec(tokens@)->0,
    {
        self.try_decode(tokens).unwrap()
    }
}

proof fn lemma_decode_fold_prefix_none(ids: Map<u32, Seq<char>>, tokens: Seq<u32>, k: int)
    requires
        0 <= k <= tokens.len(),
        decode_fold(ids, tokens.take(k)) is None,
    ensures
        decode_fold(ids, tokens) is None,
    decreases tokens.len() - k,
{
    if k < tokens.len() {
        assert(tokens.take(k + 1).drop_last() == tokens.take(k));
        lemma_decode_fold_prefix_none(ids, tokens, k + 1);
    } else {
        assert(tokens.take(k) == tokens);
    }
}

proof fn lemma_unbyte_prefix_none(text: Seq<char>, k: int)
    requires
        0 <= k <= text.len(),
        unbyte(text.take(k)) is None,
    ensures
        unbyte(text) is None,
    decreases text.len() - k,
{
    if k < text.len() {
        assert(text.take(k + 1).drop_last() == text.take(k));
        lemma_unbyte_prefix_none(text, k + 1);
    } else {
        assert(text.take(k) == text);
    }
}

/// One byte's effect on the count of continuation bytes a token still
/// needs (first) and the lowest count seen (second): an ASCII byte resets
/// the count, a continuation byte lowers it by one, a leading byte of a two,
/// three or four byte sequence sets it to one, two or three.
pub open spec fn need_step(st: (int, int), c: u8) -> (int, int) {
    let need = if c < 0x80 {
        0
    } else if c < 0xC0 {
        st.0 - 1
    } else if c < 0xE0 {
        1
    } else if c < 0xF0 {
        2
    } else if c < 0xF8 {
        3
    } else {
        st.0
    };
    (need, if need < st.1 { need } else { st.1 })
}

/// The counts after all the bytes, starting from zero.
pub open spec fn need_run(bytes: Seq<u8>) -> (int, int)
    decreases bytes.len(),
{
    if bytes.len() == 0 {
        (0, 0)
    } else {
        need_step(need_run(bytes.drop_last()), bytes.last())
    }
}

/// How a token stands in UTF-8: the continuation bytes it leaves pending
/// when positive, else the lowest count seen (negative when it begins with
/// continuation bytes).
pub open spec fn unicode_need(bytes: Seq<u8>) -> int {
    let (need, lowest) = need_run(bytes);
    if need == 0 { lowest } else { need }
}

/// The bytes of a token's string: with byte runes and a `0x` string, the
/// single byte written after it (`None` when that is not a hexadecimal
/// `u8`); otherwise its UTF-8 bytes. `None` too when the count could leave
/// the range of `i32`.
pub open spec fn unitrim_bytes(byte_runes: bool, v: Seq<char>) -> Option<Seq<u8>> {
    let bytes = if byte_runes && has_hex_prefix(v) {
        match parse_hex(v.skip(2), 255) {
            Some(b) => Some(seq![b as u8]),
            None => None,
        }
    } else {
        Some(encode_utf8(v))
    };
    match bytes {
        Some(bs) => if bs.len() <= i32::MAX { Some(bs) } else { None },
        None => None,
    }
}

proof fn lemma_need_bounds(bytes: Seq<u8>)
    ensures
        -(bytes.len() as int) <= need_run(bytes).0 <= 3,
        -(bytes.len() as int) <= need_run(bytes).1 <= 0,
    decreases bytes.len(),
{
    if bytes.len() > 0 {
        lemma_need_bounds(bytes.drop_last());
    }
}

fn unicode_need_exec(bytes: &[u8]) -> (r: i32)
    requires
        bytes@.len() <= i32::MAX,
    ensures
        r as int == unicode_need(bytes@),
{
    let mut need: i32 = 0;
    let mut min_need: i32 = 0;
    let mut k: usize = 0;
    while k < bytes.len()
        invariant
            k <= bytes@.len(),
            bytes@.len() <= i32::MAX,
            need_run(bytes@.take(k as int)) == (need as int, min_need as int),
        decreases bytes@.len() - k,
    {
        let c = bytes[k];
        proof {
            lemma_need_bounds(bytes@.take(k as int));
            assert(bytes@.take(k + 1).drop_last() == bytes@.take(k as int));
            assert(bytes@.take(k + 1).last() == c);
            assert((c & 0x80u8) == 0 <==> c < 0x80) by (bit_vector);
            assert((c & 0xC0u8) == 0x80 <==> (0x80 <= c && c < 0xC0)) by (bit_vector);
            assert((c & 0xE0u8) == 0xC0 <==> (0xC0 <= c && c < 0xE0)) by (bit_vector);
            assert((c & 0xF0u8) == 0xE0 <==> (0xE0 <= c && c < 0xF0)) by (bit_vector);
            assert((c & 0xF8u8) == 0xF0 <==> (0xF0 <= c && c < 0xF8)) by (bit_vector);
        }
        if (c & 0b1000_0000) == 0 {
            need = 0;
        } else if (c & 0b1100_0000) == 0b1000_0000 {
            need -= 1;
        } else if (c & 0b1110_0000) == 0b1100_0000 {
            need = 1;
        } else if (c & 0b1111_0000) == 0b1110_0000 {
            need = 2;
        } else if (c & 0b1111_1000) == 0b1111_0000 {
            need = 3;
        }
        if need < min_need {
            min_need = need;
        }
        k = k + 1;
    }
    assert(bytes@.take(bytes@.len() as int) == bytes@);
    if need == 0 {
        need = min_need;
    }
    need
}

impl Tokenizer {
    /// The unicode need of the string of id `i`, for `i` taken as a `u32`;
    /// `None` when the id has no string or its bytes are not defined.
    pub open spec fn unitrim_at(self, i: int) -> Option<int> {
        let key = i as u32;
        if !self.id_strings().contains_key(key) {
            None
        } else {
            match unitrim_bytes(self.runes() is Some, self.id_strings()[key]) {
                Some(bs) => Some(unicode_need(bs)),
                None => None,
            }
        }
    }

    /// The unicode needs of ids `0..n`.
    pub open spec fn unitrim_upto(self, n: int) -> Option<Seq<int>>
        decreases n,
    {
        if n <= 0 {
            Some(seq![])
        } else {
            match (self.unitrim_upto(n - 1), self.unitrim_at(n - 1)) {
                (Some(front), Some(x)) => Some(front.push(x)),
                _ => None,
            }
        }
    }

    /// For each id below the vocabulary's size, how its string stands in
    /// UTF-8, or `None` when some id has no defined value.
    pub open spec fn unitrim_spec(self) -> Option<Seq<int>> {
        self.unitrim_upto(self.vocab().len() as int)
    }

    /// For each id below the vocabulary's size, how its string stands in
    /// UTF-8, or `None` when some id has no string or no defined bytes.
    pub fn try_make_unitrim(&self) -> (r: Option<Vec<i32>>)
        ensures
            r matches Some(v) ==> self.unitrim_spec() == Some(v@.map_values(|x: i32| x as int)),
            r is None ==> self.unitrim_spec() is None,
    {
        let n = ordered_len(&self.encoder);
        let mut out: Vec<i32> = Vec::new();
        let mut i: usize = 0;
        while i < n
            invariant
                i <= n,
                n == self.vocab().len(),
                self.unitrim_upto(i as int) == Some(out@.map_values(|x: i32| x as int)),
            decreases n - i,
        {
            let key = i as u32;
            let v = match id_table_get(&self.decoder, key) {
                Some(v) => v,
                None => {
                    proof {
                        lemma_unitrim_prefix_none(*self, i as int + 1, n as int);
                    }
                    return None;
                },
            };
            let chars = chars_of(v.as_str());
            let bytes: Vec<u8> = if self.bytes_encoder.is_some() && chars.len() >= 2 && chars[0] == '0' && chars[1] == 'x' {
                let rest = crate::split::skip_chars(&chars, 2);
                match parse_hex_exec(rest.as_slice(), 255) {
                    Some(b) => {
                        let mut one: Vec<u8> = Vec::new();
                        one.push(b as u8);
                        one
                    },
                    None => {
                        proof {
                            lemma_unitrim_prefix_none(*self, i as int + 1, n as int);
                        }
                        return None;
                    },
                }
            } else {
                let bs = v.as_str().as_bytes();
                let mut copy: Vec<u8> = Vec::new();
                let mut j: usize = 0;
                while j < bs.len()
                    invariant
                        j <= bs@.len(),
                        copy@ == bs@.take(j as int),
                    decreases bs@.len() - j,
                {
                    copy.push(bs[j]);
                    assert(bs@.take(j + 1) == bs@.take(j as int).push(bs@[j as int]));
                    j = j + 1;
                }
                assert(bs@.take(bs@.len() as int) == bs@);
                copy
            };
            if bytes.len() > i32::MAX as usize {
                proof {
                    lemma_unitrim_prefix_none(*self, i as int + 1, n as int);
                }
                return None;
            }
            let need = unicode_need_exec(bytes.as_slice());
            let ghost before = out@.map_values(|x: i32| x as int);
            out.push(need);
            assert(out@.map_values(|x: i32| x as int) == before.push(need as int));
            i = i + 1;
        }
        Some(out)
    }

    /// For each id below the vocabulary's size, how its string stands in
    /// UTF-8: the continuation bytes it leaves pending, or, when none, the
    /// lowest count reached (negative when it begins with continuation
    /// bytes).
    pub fn make_unitrim(&self) -> (r: Vec<i32>)
        requires
            self.unitrim_spec() is Some,
        ensures
            r@.map_values(|x: i32| x as int) == self.unitrim_spec()->0,
    {
        self.try_make_unitrim().unwrap()
    }

    /// The vocabulary entries whose token contains `s`, in vocabulary order.
    pub fn tokens_containing(&self, s: &str) -> (r: Vec<(String, u32)>)
        ensures
            r@.map_values(|p: (String, u32)| pair_view(p)) == self.vocab().filter(|e: (Seq<char>, u32)| occurs_in(s@, e.0)),
    {
        let needle = chars_of(s);
        let ghost pred = |e: (Seq<char>, u32)| occurs_in(s@, e.0);
        let ghost ev = self.vocab();
        let n = ordered_len(&self.encoder);
        let mut out: Vec<(String, u32)> = Vec::new();
        let mut i: usize = 0;
        while i < n
            invariant
                i <= n,
                n == ev.len(),
                ev == self.vocab(),
                needle@ == s@,
                pred == (|e: (Seq<char>, u32)| occurs_in(s@, e.0)),
                out@.map_values(|p: (String, u32)| pair_view(p)) == ev.take(i as int).filter(pred),
            decreases n - i,
        {
            let (key, id) = ordered_get_index(&self.encoder, i).unwrap();
            let ghost before = out@.map_values(|p: (String, u32)| pair_view(p));
            proof {
                reveal(Seq::filter);
                assert(ev.take(i + 1).drop_last() == ev.take(i as int));
                assert(ev.take(i + 1).last() == ev[i as int]);
            }
            let hay = chars_of(key.as_str());
            if occurs_in_exec(needle.as_slice(), hay.as_slice()) {
                out.push((key.clone(), *id));
                assert(out@.map_values(|p: (String, u32)| pair_view(p)) == before.push(ev[i as int]));
            }
            i = i + 1;
        }
        assert(ev.take(n as int) == ev);
        out
    }

    /// Whether every special token is ASCII; splitting then ends on every
    /// text.
    pub fn specials_are_ascii(&self) -> (r: bool)
        ensures
            r == ascii_specials(self.special_set()),
            r ==> forall|text: Seq<char>| #[trigger] self.splits(text),
    {
        let ghost e = self.special_ids();
        let ghost set = self.special_set();
        let n = ordered_len(&self.specials);
        let mut i: usize = 0;
        while i < n
            invariant
                i <= n,
                n == e.len(),
                e == self.special_ids(),
                set == self.special_set(),
                forall|j: int| 0 <= j < i ==> is_ascii_chars(#[trigger] e[j].0),
            decreases n - i,
        {
            let (key, _) = ordered_get_index(&self.specials, i).unwrap();
            let chars = chars_of(key.as_str());
            assert(set.contains(e[i as int].0));
            assert(chars@ == e[i as int].0);
            let mut k: usize = 0;
            while k < chars.len()
                invariant
                    k <= chars@.len(),
                    set == self.special_set(),
                    set.contains(chars@),
                    forall|m: int| 0 <= m < k ==> '\0' <= #[trigger] chars@[m] <= '\u{7f}',
                decreases chars@.len() - k,
            {
                proof {
                    lemma_ascii_code(chars@[k as int]);
                }
                if chars[k] as u32 > 127 {
                    assert(!is_ascii_chars(chars@));
                    assert(!ascii_specials(set));
                    return false;
                }
                k = k + 1;
            }
            i = i + 1;
        }
        assert forall|s: Seq<char>| #[trigger] set.contains(s) implies is_ascii_chars(s) by {
            let j = choose|j: int| 0 <= j < e.len() && #[trigger] e[j].0 == s;
            assert(is_ascii_chars(e[j].0));
        }
        assert forall|text: Seq<char>| #[trigger] self.splits(text) by {
            lemma_ascii_specials_halt(set, text);
        }
        true
    }

    /// One value per vocabulary entry: the table of how tokens stand in
    /// UTF-8 has as many values as the tokenizer has tokens.
    pub proof fn lemma_unitrim_len(self)
        requires
            self.unitrim_spec() is Some,
        ensures
            self.unitrim_spec()->0.len() == self.vocab().len(),
    {
        self.lemma_unitrim_upto_len(self.vocab().len() as int);
    }

    proof fn lemma_unitrim_upto_len(self, n: int)
        requires
            n >= 0,
            self.unitrim_upto(n) is Some,
        ensures
            self.unitrim_upto(n)->0.len() == n,
        decreases n,
    {
        if n > 0 {
            self.lemma_unitrim_upto_len(n - 1);
        }
    }

    /// The number of vocabulary entries.
    pub fn total_tokens(&self) -> (r: usize)
        ensures
            r == self.vocab().len(),
    {
        ordered_len(&self.encoder)
    }
}

proof fn lemma_unitrim_prefix_none(t: Tokenizer, k: int, n: int)
    requires
        0 <= k <= n,
        t.unitrim_upto(k) is None,
    ensures
        t.unitrim_upto(n) is None,
    decreases n - k,
{
    if k < n {
        lemma_unitrim_prefix_none(t, k + 1, n);
    }
}

} // verus!

//! Laws that relate encoding and decoding: a special token alone encodes to
//! its id, and decoding gives back the text that was encoded when the
//! vocabulary covers it.
use vstd::prelude::*;
use vstd::utf8::{encode_utf8, is_ascii_chars, is_ascii_chars_encode_utf8, is_ascii_chars_nat_bound};
use crate::bytes::{byte_char, byte_code, lemma_byte_code_injective};
use crate::text::{decimal, digit_char, has_hex_prefix, lemma_ascii_code, occurs_in, parse_hex};
use vstd::utf8::is_scalar;
use crate::tokenizer::{
    byte_of, code_chars, decode_fold, decode_raw, unbyte, id_strings, joined, merge_ranks, special_entries, to_unicode_spec,
    rune_entries, rune_value,
    valid_config, vocab_entries, Tokenizer,
};
use crate::collections::{has_key, key_pos, lookup, sorted_by_key_bytes};
use crate::bpe::{bpe_merge, merge_pair, best_index, lemma_best_index, lemma_merge_shrinks, singletons, symbols_ids, byte_rune_ids, lemma_bpe_spells_fragment};
use crate::split::{
    Piece, flush, piece_text, pieces_text, piece_words, regex_matches, split_run, split_step, SplitState, split_start,
    split_fuel, split_pieces, split_finish, split_halts, split_words_spec,
};

verus! {

/// The text of the tokens one after another: a token whose string begins
/// with `0x` stands for the character whose code is written after it, any
/// other token for its string. `None` when a token has no string, or its
/// `0x` value is not a hexadecimal `u32` that is a character's code.
pub open spec fn tokens_text(ids: Map<u32, Seq<char>>, tokens: Seq<u32>) -> Option<Seq<char>>
    decreases tokens.len(),
{
    if tokens.len() == 0 {
        Some(seq![])
    } else {
        match tokens_text(ids, tokens.drop_last()) {
            Some(front) => {
                let t = tokens.last();
                if !ids.contains_key(t) {
                    None
                } else if has_hex_prefix(ids[t]) {
                    match parse_hex(ids[t].skip(2), u32::MAX as nat) {
                        Some(v) => if is_scalar(v as u32) {
                            Some(front.push((v as u32) as char))
                        } else {
                            None
                        },
                        None => None,
                    }
                } else {
                    Some(front + ids[t])
                }
            },
            None => None,
        }
    }
}

proof fn lemma_tokens_text_fold(ids: Map<u32, Seq<char>>, tokens: Seq<u32>)
    requires
        tokens_text(ids, tokens) is Some,
    ensures
        decode_fold(ids, tokens) matches Some((text, pending)) && code_chars(pending) matches Some(cs)
            && text + cs == tokens_text(ids, tokens)->0,
    decreases tokens.len(),
{
    if tokens.len() == 0 {
        assert(Seq::<char>::empty() + Seq::<char>::empty() == Seq::<char>::empty());
    } else {
        let d = tokens.drop_last();
        lemma_tokens_text_fold(ids, d);
        let (text, pending) = decode_fold(ids, d)->0;
        let cs = code_chars(pending)->0;
        let front = tokens_text(ids, d)->0;
        let t = tokens.last();
        if has_hex_prefix(ids[t]) {
            let v = parse_hex(ids[t].skip(2), u32::MAX as nat)->0;
            let p2 = pending.push(v as u32);
            assert(p2.drop_last() == pending);
            assert(p2.last() == v as u32);
            assert(code_chars(p2) == Some(cs.push((v as u32) as char)));
            assert(text + cs.push((v as u32) as char) == (text + cs).push((v as u32) as char));
        } else {
            assert(code_chars(Seq::<u32>::empty()) == Some(Seq::<char>::empty()));
            assert(text + cs + ids[t] + Seq::<char>::empty() == front + ids[t]);
        }
    }
}

/// Tokens whose text is defined decode, before bytes are restored, to that
/// text.
pub proof fn lemma_tokens_text_decode(ids: Map<u32, Seq<char>>, tokens: Seq<u32>)
    requires
        tokens_text(ids, tokens) is Some,
    ensures
        decode_raw(ids, tokens) == tokens_text(ids, tokens),
{
    lemma_tokens_text_fold(ids, tokens);
}

/// The text of two token runs, one after the other.
pub proof fn lemma_tokens_text_concat(ids: Map<u32, Seq<char>>, a: Seq<u32>, b: Seq<u32>)
    requires
        tokens_text(ids, a) is Some,
        tokens_text(ids, b) is Some,
    ensures
        tokens_text(ids, a + b) == Some(tokens_text(ids, a)->0 + tokens_text(ids, b)->0),
    decreases b.len(),
{
    let x = tokens_text(ids, a)->0;
    if b.len() == 0 {
        assert(a + b == a);
        assert(x + Seq::<char>::empty() == x);
    } else {
        lemma_tokens_text_concat(ids, a, b.drop_last());
        assert((a + b).drop_last() == a + b.drop_last());
        assert((a + b).last() == b.last());
        let y = tokens_text(ids, b.drop_last())->0;
        let t = b.last();
        assert(x + y + ids[t] == x + (y + ids[t]));
        if has_hex_prefix(ids[t]) {
            let v = parse_hex(ids[t].skip(2), u32::MAX as nat)->0;
            assert((x + y).push((v as u32) as char) == x + y.push((v as u32) as char));
        }
    }
}

/// Decimal renderings are never empty.
proof fn lemma_decimal_nonempty(n: nat)
    ensures
        decimal(n).len() >= 1,
    decreases n,
{
    if n >= 10 {
        lemma_decimal_nonempty(n / 10);
    }
}

proof fn lemma_digit_char_injective(a: nat, b: nat)
    requires
        a < 10,
        b < 10,
        digit_char(a) == digit_char(b),
    ensures
        a == b,
{
    let x = (a + 48) as u32;
    let y = (b + 48) as u32;
    assert(is_scalar(x) && is_scalar(y));
    assert((x as char) as u32 == x) by {
        broadcast use vstd::utf8::char_u32_cast;
    }
    assert((y as char) as u32 == y) by {
        broadcast use vstd::utf8::char_u32_cast;
    }
}

/// Distinct numbers have distinct decimal renderings.
pub proof fn lemma_decimal_injective(a: nat, b: nat)
    requires
        decimal(a) == decimal(b),
    ensures
        a == b,
    decreases a,
{
    if a < 10 && b < 10 {
        assert(decimal(a) == seq![digit_char(a)]);
        assert(decimal(b) == seq![digit_char(b)]);
        assert(decimal(a)[0] == digit_char(a));
        assert(decimal(b)[0] == digit_char(b));
        lemma_digit_char_injective(a, b);
    } else if a < 10 {
        lemma_decimal_nonempty(b / 10);
        assert(decimal(b).len() >= 2);
    } else if b < 10 {
        lemma_decimal_nonempty(a / 10);
        assert(decimal(a).len() >= 2);
    } else {
        assert(decimal(a).last() == digit_char(a % 10));
        assert(decimal(b).last() == digit_char(b % 10));
        lemma_digit_char_injective(a % 10, b % 10);
        assert(decimal(a).drop_last() == decimal(a / 10));
        assert(decimal(b).drop_last() == decimal(b / 10));
        lemma_decimal_injective(a / 10, b / 10);
    }
}

/// The rune entry comes from a `0x` vocabulary entry: its key is the
/// decimal rendering of that entry's value, and its id is that entry's id.
pub open spec fn rune_from(v: Seq<(Seq<char>, u32)>, e: (Seq<char>, u32)) -> bool {
    exists|j: int| 0 <= j < v.len() && has_hex_prefix(#[trigger] v[j].0) && e.0 == decimal(rune_value(v[j].0) as nat) && e.1 == v[j].1
}

/// Every byte rune comes from a `0x` vocabulary entry.
pub proof fn lemma_rune_entries(v: Seq<(Seq<char>, u32)>)
    ensures
        forall|i: int| 0 <= i < rune_entries(v).len() ==> rune_from(v, #[trigger] rune_entries(v)[i]),
    decreases v.len(),
{
    if v.len() > 0 {
        let d = v.drop_last();
        lemma_rune_entries(d);
        let e = rune_entries(v);
        let e0 = rune_entries(d);
        let l = v.len() - 1;
        assert(v[l] == v.last());
        assert forall|i: int| 0 <= i < e.len() implies rune_from(v, #[trigger] e[i]) by {
            if has_hex_prefix(v.last().0) && e[i] == (decimal(rune_value(v.last().0) as nat), v.last().1) {
                assert(has_hex_prefix(v[l].0));
            } else {
                assert(i < e0.len() && e[i] == e0[i]);
                assert(rune_from(d, e0[i]));
                let j = choose|j: int| 0 <= j < d.len() && has_hex_prefix(#[trigger] d[j].0)
                    && e0[i].0 == decimal(rune_value(d[j].0) as nat) && e0[i].1 == d[j].1;
                assert(v[j] == d[j]);
            }
        }
    }
}

/// Restoring bytes distributes over concatenation.
pub proof fn lemma_unbyte_concat(a: Seq<char>, b: Seq<char>)
    requires
        unbyte(a) is Some,
        unbyte(b) is Some,
    ensures
        unbyte(a + b) == Some(unbyte(a)->0 + unbyte(b)->0),
    decreases b.len(),
{
    let x = unbyte(a)->0;
    if b.len() == 0 {
        assert(a + b == a);
        assert(x + Seq::<char>::empty() == x);
    } else {
        lemma_unbyte_concat(a, b.drop_last());
        assert((a + b).drop_last() == a + b.drop_last());
        assert((a + b).last() == b.last());
        let y = unbyte(b.drop_last())->0;
        let c = byte_of(b.last())->0;
        assert((x + y).push(c as char) == x + y.push(c as char));
    }
}

/// Every byte's character stands for that byte.
pub proof fn lemma_byte_of_byte_char(b: u32)
    requires
        b < 256,
    ensures
        byte_of(byte_char(b as nat)) == Some(b),
{
    let x = byte_char(b as nat);
    assert(b < 256 && byte_char(b as nat) == x);
    let b2 = choose|b2: u32| b2 < 256 && byte_char(b2 as nat) == x;
    lemma_byte_code_injective(b2 as nat, b as nat);
}

/// Restoring the characters of bytes gives one character per byte, the one
/// whose code is the byte.
pub proof fn lemma_unbyte_bytes(bs: Seq<u8>)
    ensures
        unbyte(bs.map_values(|b: u8| byte_char(b as nat))) == Some(bs.map_values(|b: u8| (b as u32) as char)),
    decreases bs.len(),
{
    if bs.len() > 0 {
        let d = bs.drop_last();
        lemma_unbyte_bytes(d);
        lemma_byte_of_byte_char(bs.last() as u32);
        assert(bs.map_values(|b: u8| byte_char(b as nat)).drop_last() == d.map_values(|b: u8| byte_char(b as nat)));
        assert(bs.map_values(|b: u8| byte_char(b as nat)).last() == byte_char(bs.last() as nat));
        assert(bs.map_values(|b: u8| (b as u32) as char) == d.map_values(|b: u8| (b as u32) as char).push((bs.last() as u32) as char));
    }
}

/// Without byte runes, a word's fragment restores to one character per
/// UTF-8 byte of the word, the one whose code is the byte: ASCII words come
/// back as they were, other characters as the characters of their bytes.
pub proof fn lemma_unbyte_fragment(w: Seq<char>)
    ensures
        unbyte(to_unicode_spec(false, w)) == Some(encode_utf8(w).map_values(|b: u8| (b as u32) as char)),
{
    lemma_unbyte_bytes(encode_utf8(w));
}

/// The character of an ASCII byte stands for that byte.
proof fn lemma_byte_of_ascii(c: char)
    requires
        (c as u32) < 128,
    ensures
        byte_of(byte_char((c as u32) as nat)) == Some(c as u32),
        ((c as u32) as char) == c,
{
    lemma_byte_of_byte_char(c as u32);
    vstd::utf8::char_u32_cast(c, c as u32);
}

/// A printable ASCII character stands for itself.
proof fn lemma_printable_char(c: char)
    requires
        33 <= (c as u32) <= 126,
    ensures
        byte_char((c as u32) as nat) == c,
{
    let b: u32 = c as u32;
    assert(byte_code(b as nat) == b);
    vstd::utf8::char_u32_cast(c, b);
}

/// Characters that stand for the bytes of ASCII text restore to that text.
pub proof fn lemma_unbyte_ascii(x: Seq<char>, w: Seq<char>)
    requires
        is_ascii_chars(w),
        x.len() == w.len(),
        forall|i: int| 0 <= i < w.len() ==> #[trigger] x[i] == byte_char((w[i] as u32) as nat),
    ensures
        unbyte(x) == Some(w),
    decreases w.len(),
{
    broadcast use is_ascii_chars_nat_bound;
    if w.len() > 0 {
        let c = w.last();
        assert(is_ascii_chars(w.drop_last()));
        assert forall|i: int| 0 <= i < w.drop_last().len() implies #[trigger] x.drop_last()[i] == byte_char((w.drop_last()[i] as u32) as nat) by {
            assert(x[i] == byte_char((w[i] as u32) as nat));
        }
        lemma_unbyte_ascii(x.drop_last(), w.drop_last());
        assert((w[w.len() - 1] as nat) < 128);
        lemma_byte_of_ascii(c);
        assert(x.last() == byte_char((c as u32) as nat));
        assert(w.drop_last().push(c) == w);
    } else {
        assert(w == Seq::<char>::empty());
    }
}

/// Printable ASCII text restores to itself.
pub proof fn lemma_unbyte_printable(w: Seq<char>)
    requires
        forall|i: int| 0 <= i < w.len() ==> 33 <= (#[trigger] w[i] as u32) <= 126,
    ensures
        unbyte(w) == Some(w),
{
    assert forall|i: int| 0 <= i < w.len() implies #[trigger] w[i] == byte_char((w[i] as u32) as nat) by {
        lemma_printable_char(w[i]);
    }
    assert(is_ascii_chars(w)) by {
        assert forall|i: int| 0 <= i < w.len() implies '\0' <= #[trigger] w[i] <= '\u{7f}' by {
            assert(33 <= (w[i] as u32) <= 126);
        }
    }
    lemma_unbyte_ascii(w, w);
}

/// Every symbol after merging a pair is one of the symbols before or the
/// joined pair.
pub proof fn lemma_merge_pair_parts(w: Seq<Seq<char>>, a: Seq<char>, b: Seq<char>)
    ensures
        forall|i: int| 0 <= i < merge_pair(w, a, b).len() ==> w.contains(#[trigger] merge_pair(w, a, b)[i]) || merge_pair(w, a, b)[i] == a + b,
    decreases w.len(),
{
    let m = merge_pair(w, a, b);
    if w.len() == 0 {
    } else if w.len() >= 2 && w[0] == a && w[1] == b {
        let rest = merge_pair(w.skip(2), a, b);
        lemma_merge_pair_parts(w.skip(2), a, b);
        assert forall|i: int| 0 <= i < m.len() implies w.contains(#[trigger] m[i]) || m[i] == a + b by {
            if i > 0 {
                assert(m[i] == rest[i - 1]);
                if w.skip(2).contains(rest[i - 1]) {
                    let j = choose|j: int| 0 <= j < w.skip(2).len() && w.skip(2)[j] == rest[i - 1];
                    assert(w[j + 2] == m[i]);
                }
            }
        }
    } else {
        let rest = merge_pair(w.skip(1), a, b);
        lemma_merge_pair_parts(w.skip(1), a, b);
        assert forall|i: int| 0 <= i < m.len() implies w.contains(#[trigger] m[i]) || m[i] == a + b by {
            if i > 0 {
                assert(m[i] == rest[i - 1]);
                if w.skip(1).contains(rest[i - 1]) {
                    let j = choose|j: int| 0 <= j < w.skip(1).len() && w.skip(1)[j] == rest[i - 1];
                    assert(w[j + 1] == m[i]);
                }
            } else {
                assert(m[0] == w[0]);
            }
        }
    }
}

/// Every symbol after byte-pair merging is one of the symbols before or a
/// string of the merge table.
pub proof fn lemma_bpe_merge_parts(ranks: Map<Seq<char>, usize>, w: Seq<Seq<char>>)
    ensures
        forall|i: int| 0 <= i < bpe_merge(ranks, w).len() ==> w.contains(#[trigger] bpe_merge(ranks, w)[i]) || ranks.contains_key(bpe_merge(ranks, w)[i]),
    decreases w.len(),
{
    if w.len() > 1 {
        let b = best_index(ranks, w, w.len() - 1);
        if ranks.contains_key(w[b] + w[b + 1]) {
            lemma_best_index(ranks, w, w.len() - 1);
            lemma_merge_shrinks(w, w[b], w[b + 1], b);
            let m = merge_pair(w, w[b], w[b + 1]);
            lemma_merge_pair_parts(w, w[b], w[b + 1]);
            lemma_bpe_merge_parts(ranks, m);
            let r = bpe_merge(ranks, m);
            assert forall|i: int| 0 <= i < r.len() implies w.contains(#[trigger] r[i]) || ranks.contains_key(r[i]) by {
                if m.contains(r[i]) {
                    let j = choose|j: int| 0 <= j < m.len() && m[j] == r[i];
                    assert(w.contains(m[j]) || m[j] == w[b] + w[b + 1]);
                }
            }
        }
    }
}

/// No two vocabulary entries share an id.
pub open spec fn ids_distinct(v: Seq<(Seq<char>, u32)>) -> bool {
    forall|i: int, j: int| 0 <= i < j < v.len() ==> #[trigger] v[i].1 != #[trigger] v[j].1
}

/// With distinct ids, the id-to-string table gives each entry's id back its
/// string.
pub proof fn lemma_id_strings_at(v: Seq<(Seq<char>, u32)>, j: int)
    requires
        ids_distinct(v),
        0 <= j < v.len(),
    ensures
        id_strings(v).contains_key(v[j].1),
        id_strings(v)[v[j].1] == v[j].0,
    decreases v.len(),
{
    if j < v.len() - 1 {
        let d = v.drop_last();
        assert forall|a: int, b: int| 0 <= a < b < d.len() implies #[trigger] d[a].1 != #[trigger] d[b].1 by {
            assert(d[a] == v[a] && d[b] == v[b]);
        }
        lemma_id_strings_at(d, j);
        assert(d[j] == v[j]);
        assert(v[j].1 != v[v.len() - 1].1);
    }
}

/// Each special token entry holds the token's vocabulary id.
proof fn lemma_special_entries_ids(vocab: Seq<(Seq<char>, u32)>, specials: Seq<Seq<char>>)
    requires
        forall|i: int| 0 <= i < specials.len() ==> has_key(vocab, #[trigger] specials[i]),
    ensures
        forall|i: int| 0 <= i < special_entries(vocab, specials).len()
            ==> lookup(vocab, (#[trigger] special_entries(vocab, specials)[i]).0) == Some(special_entries(vocab, specials)[i].1)
                && specials.contains(special_entries(vocab, specials)[i].0),
    decreases specials.len(),
{
    if specials.len() > 0 {
        let d = specials.drop_last();
        assert forall|i: int| 0 <= i < d.len() implies has_key(vocab, #[trigger] d[i]) by {
            assert(d[i] == specials[i]);
        }
        lemma_special_entries_ids(vocab, d);
        assert(has_key(vocab, specials[specials.len() - 1]));
        let e = special_entries(vocab, specials);
        let e0 = special_entries(vocab, d);
        assert forall|i: int| 0 <= i < e.len() implies specials.contains((#[trigger] e[i]).0) by {
            if e[i].0 == specials.last() {
                assert(specials[specials.len() - 1] == e[i].0);
            } else {
                if has_key(e0, specials.last()) {
                    assert(e[i] == e0[i]);
                } else {
                    assert(e[i] == e0[i]);
                }
                let j = choose|j: int| 0 <= j < d.len() && d[j] == e[i].0;
                assert(specials[j] == e[i].0);
            }
        }
    }
}

/// A special token's id, looked up among the sorted special tokens, is its
/// vocabulary id.
pub proof fn lemma_special_id(
    vocab: Seq<(Seq<char>, u32)>,
    specials: Seq<Seq<char>>,
    sorted: Seq<(Seq<char>, u32)>,
    w: Seq<char>,
)
    requires
        forall|i: int| 0 <= i < specials.len() ==> has_key(vocab, #[trigger] specials[i]),
        sorted_by_key_bytes(special_entries(vocab, specials), sorted),
        lookup(sorted, w) is Some,
    ensures
        lookup(vocab, w) == lookup(sorted, w),
        specials.contains(w),
{
    broadcast use vstd::seq_lib::group_to_multiset_ensures;
    let old = special_entries(vocab, specials);
    lemma_special_entries_ids(vocab, specials);
    let p = key_pos(sorted, w);
    let e = sorted[p];
    assert(sorted.contains(e));
    assert(sorted.to_multiset().count(e) > 0);
    assert(old.contains(e));
    let j = choose|j: int| 0 <= j < old.len() && old[j] == e;
    assert(lookup(vocab, old[j].0) == Some(old[j].1));
    assert(specials.contains(old[j].0));
}

/// Every string of the merge table is the join of some merge.
pub proof fn lemma_merge_ranks_keys(merges: Seq<Seq<Seq<char>>>, k: Seq<char>)
    requires
        merge_ranks(merges).contains_key(k),
    ensures
        exists|i: int| 0 <= i < merges.len() && k == joined(#[trigger] merges[i]),
    decreases merges.len(),
{
    if merges.len() > 0 {
        if k == joined(merges.last()) {
            assert(k == joined(merges[merges.len() - 1]));
        } else {
            lemma_merge_ranks_keys(merges.drop_last(), k);
            let i = choose|i: int| 0 <= i < merges.drop_last().len() && k == joined(#[trigger] merges.drop_last()[i]);
            assert(merges.drop_last()[i] == merges[i]);
        }
    }
}

/// Every piece stands for some text.
pub open spec fn pieces_nonempty(ps: Seq<Piece>) -> bool {
    forall|i: int| 0 <= i < ps.len() ==> piece_text(#[trigger] ps[i]).len() > 0
}

proof fn lemma_flush_nonempty(ps: Seq<Piece>, acc: Seq<char>, special: Seq<char>)
    requires
        pieces_nonempty(ps),
    ensures
        pieces_nonempty(flush(ps, acc, special)),
{
    let p = if acc.len() > 0 { ps.push(Piece::Text(acc)) } else { ps };
    assert(pieces_nonempty(p)) by {
        assert forall|i: int| 0 <= i < p.len() implies piece_text(#[trigger] p[i]).len() > 0 by {
            if i < ps.len() {
                assert(p[i] == ps[i]);
            }
        }
    }
    let q = flush(ps, acc, special);
    assert forall|i: int| 0 <= i < q.len() implies piece_text(#[trigger] q[i]).len() > 0 by {
        if i < p.len() {
            assert(q[i] == p[i]);
        }
    }
}

/// The splitting walk emits no empty piece.
pub proof fn lemma_run_nonempty(specials: Set<Seq<char>>, text: Seq<char>, st: SplitState, fuel: nat)
    requires
        pieces_nonempty(st.pieces),
        split_run(specials, text, st, fuel) is Some,
    ensures
        pieces_nonempty(split_run(specials, text, st, fuel)->0),
    decreases fuel,
{
    if st.pos >= text.len() {
        if st.special.len() > 0 {
            match st.last_full {
                Some(v) => {
                    lemma_flush_nonempty(st.pieces, st.acc, v);
                    lemma_flush_nonempty(flush(st.pieces, st.acc, v), st.special.skip(v.len() as int), seq![]);
                },
                None => {
                    lemma_flush_nonempty(st.pieces, st.acc + st.special, seq![]);
                },
            }
        } else {
            lemma_flush_nonempty(st.pieces, st.acc, seq![]);
        }
    } else {
        let nx = split_step(specials, text, st)->0;
        if st.last_full is Some {
            lemma_flush_nonempty(st.pieces, st.acc, st.last_full->0);
        }
        assert(pieces_nonempty(nx.pieces));
        lemma_run_nonempty(specials, text, nx, (fuel - 1) as nat);
    }
}

/// Each part of ASCII text is ASCII.
proof fn lemma_ascii_parts(a: Seq<char>, b: Seq<char>)
    requires
        is_ascii_chars(a + b),
    ensures
        is_ascii_chars(a),
        is_ascii_chars(b),
{
    assert forall|i: int| 0 <= i < a.len() implies '\0' <= #[trigger] a[i] <= '\u{7f}' by {
        assert(a[i] == (a + b)[i]);
    }
    assert forall|i: int| 0 <= i < b.len() implies '\0' <= #[trigger] b[i] <= '\u{7f}' by {
        assert(b[i] == (a + b)[a.len() + i]);
    }
}

/// The parts of ASCII text are ASCII.
pub proof fn lemma_flatten_ascii(ms: Seq<Seq<char>>)
    requires
        is_ascii_chars(ms.flatten()),
    ensures
        forall|i: int| 0 <= i < ms.len() ==> is_ascii_chars(#[trigger] ms[i]),
    decreases ms.len(),
{
    if ms.len() > 0 {
        lemma_ascii_parts(ms.first(), ms.drop_first().flatten());
        lemma_flatten_ascii(ms.drop_first());
        assert forall|i: int| 0 <= i < ms.len() implies is_ascii_chars(#[trigger] ms[i]) by {
            if i > 0 {
                assert(ms[i] == ms.drop_first()[i - 1]);
            }
        }
    }
}

/// The pattern's matches in every non-empty stretch of `text` are
/// non-empty and spell that stretch.
pub open spec fn pattern_tiles(pattern: Seq<char>, text: Seq<char>) -> bool {
    forall|s: Seq<char>| s.len() > 0 && #[trigger] occurs_in(s, text) ==> match regex_matches(pattern, s) {
        Some(ms) => ms.flatten() == s && forall|i: int| 0 <= i < ms.len() ==> (#[trigger] ms[i]).len() > 0,
        None => false,
    }
}

/// Every piece occurs in the text that the pieces spell.
proof fn lemma_pieces_occur(ps: Seq<Piece>)
    ensures
        forall|i: int| 0 <= i < ps.len() ==> occurs_in(piece_text(#[trigger] ps[i]), pieces_text(ps)),
    decreases ps.len(),
{
    if ps.len() > 0 {
        let d = ps.drop_last();
        lemma_pieces_occur(d);
        let p = pieces_text(d);
        let l = piece_text(ps.last());
        assert(pieces_text(ps) == p + l);
        assert forall|i: int| 0 <= i < ps.len() implies occurs_in(piece_text(#[trigger] ps[i]), pieces_text(ps)) by {
            let x = piece_text(ps[i]);
            if i < d.len() {
                assert(ps[i] == d[i]);
                let o = choose|o: int| 0 <= o && o + x.len() <= p.len() && #[trigger] p.subrange(o, o + x.len()) == x;
                assert((p + l).subrange(o, o + x.len()) == p.subrange(o, o + x.len()));
            } else {
                assert((p + l).subrange(p.len() as int, (p.len() + l.len()) as int) == l);
            }
        }
    }
}

/// When the pattern tiles the text, the words of non-empty pieces of the
/// text are non-empty and spell the pieces.
pub proof fn lemma_piece_words_spell(pattern: Seq<char>, text: Seq<char>, ps: Seq<Piece>)
    requires
        pattern_tiles(pattern, text),
        pieces_nonempty(ps),
        forall|i: int| 0 <= i < ps.len() ==> occurs_in(piece_text(#[trigger] ps[i]), text),
    ensures
        piece_words(pattern, ps) matches Some(ws) && (forall|i: int| 0 <= i < ws.len() ==> (#[trigger] ws[i]).len() > 0)
            && ws.flatten_alt() == pieces_text(ps),
    decreases ps.len(),
{
    if ps.len() > 0 {
        let d = ps.drop_last();
        assert forall|i: int| 0 <= i < d.len() implies occurs_in(piece_text(#[trigger] d[i]), text) && piece_text(d[i]).len() > 0 by {
            assert(d[i] == ps[i]);
        }
        lemma_piece_words_spell(pattern, text, d);
        let front = piece_words(pattern, d)->0;
        let last = ps.last();
        assert(occurs_in(piece_text(ps[ps.len() - 1]), text) && piece_text(ps[ps.len() - 1]).len() > 0);
        match last {
            Piece::Special(s) => {
                let ws = front.push(s);
                assert(ws.drop_last() == front);
                assert forall|i: int| 0 <= i < ws.len() implies (#[trigger] ws[i]).len() > 0 by {
                    if i < front.len() {
                        assert(ws[i] == front[i]);
                    }
                }
            },
            Piece::Text(t) => {
                let found = regex_matches(pattern, t)->0;
                assert(regex_matches(pattern, t) is Some);
                let ws = front + found;
                vstd::seq_lib::lemma_flatten_alt_concat(front, found);
                found.lemma_flatten_and_flatten_alt_are_equivalent();
                assert forall|i: int| 0 <= i < ws.len() implies (#[trigger] ws[i]).len() > 0 by {
                    if i < front.len() {
                        assert(ws[i] == front[i]);
                    } else {
                        assert(ws[i] == found[i - front.len()]);
                    }
                }
            },
        }
    }
}

/// Every character is printable ASCII.
pub open spec fn printable_text(s: Seq<char>) -> bool {
    forall|i: int| 0 <= i < s.len() ==> 33 <= (#[trigger] s[i] as u32) <= 126
}

/// The text that decoding makes of the tokens' text: as it is with byte
/// runes, else with each character replaced by the byte it stands for.
pub open spec fn restore(byte_runes: bool, raw: Seq<char>) -> Option<Seq<char>> {
    if byte_runes {
        Some(raw)
    } else {
        unbyte(raw)
    }
}

proof fn lemma_restore_concat(byte_runes: bool, a: Seq<char>, b: Seq<char>)
    requires
        restore(byte_runes, a) is Some,
        restore(byte_runes, b) is Some,
    ensures
        restore(byte_runes, a + b) == Some(restore(byte_runes, a)->0 + restore(byte_runes, b)->0),
{
    if !byte_runes {
        lemma_unbyte_concat(a, b);
    }
}

/// Every `0x` key holds a hexadecimal `u32`.
pub open spec fn hex_keys_parse(v: Seq<(Seq<char>, u32)>) -> bool {
    forall|i: int| 0 <= i < v.len() && has_hex_prefix(#[trigger] v[i].0) ==> parse_hex(v[i].0.skip(2), u32::MAX as nat) is Some
}

/// A merged symbol that decoding gives back: a token not beginning with
/// `0x`, or, with byte runes, ASCII text that is not a token and each of
/// whose bytes has a rune.
pub open spec fn symbol_covered(vocab: Seq<(Seq<char>, u32)>, runes: Option<Seq<(Seq<char>, u32)>>, sym: Seq<char>) -> bool {
    ||| has_key(vocab, sym) && !has_hex_prefix(sym)
    ||| runes matches Some(r) && !has_key(vocab, sym) && is_ascii_chars(sym)
        && forall|k: int| 0 <= k < sym.len() ==> lookup(r, decimal((#[trigger] sym[k] as u32) as nat)) is Some
}

/// A word that decoding gives back: a special token, or one whose merged
/// symbols are all covered.
pub open spec fn word_covered(t: Tokenizer, w: Seq<char>) -> bool {
    ||| lookup(t.special_ids(), w) is Some
    ||| forall|i: int| 0 <= i < bpe_merge(t.ranks(), singletons(to_unicode_spec(t.runes() is Some, w))).len() ==> symbol_covered(
        t.vocab(),
        t.runes(),
        #[trigger] bpe_merge(t.ranks(), singletons(to_unicode_spec(t.runes() is Some, w)))[i],
    )
}

/// What the round trip needs of a tokenizer: its id-to-string table is the
/// vocabulary's, ids are distinct, `0x` keys hold hexadecimal values, the
/// byte runes are the vocabulary's, and each special token's id is its
/// vocabulary id, with a string that does not begin with `0x` and that is
/// printable when there are no byte runes.
spec fn trip_ready(t: Tokenizer) -> bool {
    let r = t.runes() is Some;
    &&& t.id_strings() == id_strings(t.vocab())
    &&& ids_distinct(t.vocab())
    &&& hex_keys_parse(t.vocab())
    &&& (t.runes() matches Some(e) ==> e == rune_entries(t.vocab()))
    &&& forall|w: Seq<char>| #[trigger] lookup(t.special_ids(), w) is Some ==> lookup(t.vocab(), w) == lookup(t.special_ids(), w)
        && !has_hex_prefix(w) && (!r ==> printable_text(w))
}

/// How the fragment of an ASCII word relates to the word, character by
/// character.
proof fn lemma_to_unicode_ascii(r: bool, w: Seq<char>)
    requires
        is_ascii_chars(w),
    ensures
        to_unicode_spec(r, w).len() == w.len(),
        forall|i: int| 0 <= i < w.len() ==> #[trigger] to_unicode_spec(r, seq![w[i]]) == seq![to_unicode_spec(r, w)[i]],
        r ==> to_unicode_spec(r, w) == w,
        !r ==> forall|i: int| 0 <= i < w.len() ==> #[trigger] to_unicode_spec(r, w)[i] == byte_char((w[i] as u32) as nat),
{
    broadcast use is_ascii_chars_nat_bound;
    if !r {
        is_ascii_chars_encode_utf8(w);
        assert forall|i: int| 0 <= i < w.len() implies #[trigger] to_unicode_spec(r, w)[i] == byte_char((w[i] as u32) as nat) by {
            assert((w[i] as nat) < 128);
            assert(encode_utf8(w)[i] == w[i] as u8);
            assert((w[i] as u8) as nat == (w[i] as u32) as nat);
        }
        assert forall|i: int| 0 <= i < w.len() implies #[trigger] to_unicode_spec(r, seq![w[i]]) == seq![to_unicode_spec(r, w)[i]] by {
            let one = seq![w[i]];
            assert(is_ascii_chars(one)) by {
                assert(one[0] == w[i]);
            }
            is_ascii_chars_encode_utf8(one);
            assert(encode_utf8(one)[0] == one[0] as u8);
            assert((w[i] as nat) < 128);
            assert((w[i] as u8) as nat == (w[i] as u32) as nat);
            assert(to_unicode_spec(r, one) == seq![byte_char((w[i] as u32) as nat)]);
        }
    }
}

/// The byte runes of ASCII bytes give back the characters of those bytes.
proof fn lemma_rune_bytes(v: Seq<(Seq<char>, u32)>, bs: Seq<u8>, cs: Seq<char>)
    requires
        ids_distinct(v),
        hex_keys_parse(v),
        bs.len() == cs.len(),
        forall|k: int| 0 <= k < cs.len() ==> (#[trigger] cs[k] as u32) < 128 && bs[k] as nat == (cs[k] as u32) as nat
            && lookup(rune_entries(v), decimal(bs[k] as nat)) is Some,
    ensures
        byte_rune_ids(rune_entries(v), bs) matches Some(ids) && tokens_text(id_strings(v), ids) == Some(cs),
    decreases bs.len(),
{
    if bs.len() > 0 {
        let n = bs.len() - 1;
        let bd = bs.drop_last();
        let cd = cs.drop_last();
        assert forall|k: int| 0 <= k < cd.len() implies (#[trigger] cd[k] as u32) < 128 && bd[k] as nat == (cd[k] as u32) as nat
            && lookup(rune_entries(v), decimal(bd[k] as nat)) is Some by {
            assert(cd[k] == cs[k] && bd[k] == bs[k]);
        }
        lemma_rune_bytes(v, bd, cd);
        let b = bs.last();
        let c = cs.last();
        assert(b == bs[n] && c == cs[n]);
        assert((c as u32) < 128 && b as nat == (c as u32) as nat);
        let re = rune_entries(v);
        let key = decimal(b as nat);
        assert(lookup(re, key) is Some);
        let id = lookup(re, key)->0;
        let p = key_pos(re, key);
        assert(re[p].0 == key && re[p].1 == id);
        lemma_rune_entries(v);
        assert(rune_from(v, re[p]));
        let j = choose|j: int| 0 <= j < v.len() && has_hex_prefix(#[trigger] v[j].0)
            && re[p].0 == decimal(rune_value(v[j].0) as nat) && re[p].1 == v[j].1;
        lemma_decimal_injective(rune_value(v[j].0) as nat, b as nat);
        lemma_id_strings_at(v, j);
        let val = parse_hex(v[j].0.skip(2), u32::MAX as nat)->0;
        assert(parse_hex(v[j].0.skip(2), u32::MAX as nat) is Some);
        assert(val <= u32::MAX);
        assert(val == b as nat);
        assert(is_scalar(val as u32));
        vstd::utf8::char_u32_cast(c, c as u32);
        assert((val as u32) as char == c);
        let front = byte_rune_ids(re, bd)->0;
        let ids = front.push(id);
        assert(ids.drop_last() == front);
        assert(ids.last() == id);
        assert(cd.push(c) == cs);
    }
}

/// Covered symbols get ids whose text spells the symbols.
proof fn lemma_symbols_trip(v: Seq<(Seq<char>, u32)>, runes: Option<Seq<(Seq<char>, u32)>>, syms: Seq<Seq<char>>)
    requires
        ids_distinct(v),
        hex_keys_parse(v),
        runes matches Some(e) ==> e == rune_entries(v),
        forall|i: int| 0 <= i < syms.len() ==> symbol_covered(v, runes, #[trigger] syms[i]),
    ensures
        symbols_ids(v, runes, syms) matches Some(ids) && tokens_text(id_strings(v), ids) == Some(syms.flatten_alt()),
    decreases syms.len(),
{
    if syms.len() > 0 {
        let d = syms.drop_last();
        assert forall|i: int| 0 <= i < d.len() implies symbol_covered(v, runes, #[trigger] d[i]) by {
            assert(d[i] == syms[i]);
        }
        lemma_symbols_trip(v, runes, d);
        let s = syms.last();
        assert(symbol_covered(v, runes, syms[syms.len() - 1]));
        let idstr = id_strings(v);
        let front = symbols_ids(v, runes, d)->0;
        assert(tokens_text(idstr, Seq::<u32>::empty()) == Some(Seq::<char>::empty()));
        let ids_s: Seq<u32> = if has_key(v, s) && !has_hex_prefix(s) {
            let j = key_pos(v, s);
            lemma_id_strings_at(v, j);
            let id = v[j].1;
            assert(seq![id].drop_last() == Seq::<u32>::empty());
            assert(seq![id].last() == id);
            assert(Seq::<char>::empty() + s == s);
            assert(tokens_text(idstr, seq![id]) == Some(s));
            seq![id]
        } else {
            let r = runes->0;
            let bs = encode_utf8(s);
            is_ascii_chars_encode_utf8(s);
            assert forall|k: int| 0 <= k < s.len() implies (#[trigger] s[k] as u32) < 128 && bs[k] as nat == (s[k] as u32) as nat
                && lookup(rune_entries(v), decimal(bs[k] as nat)) is Some by {
                broadcast use is_ascii_chars_nat_bound;
                assert((s[k] as nat) < 128);
                assert(bs[k] == s[k] as u8);
                assert((s[k] as u8) as nat == (s[k] as u32) as nat);
            }
            lemma_rune_bytes(v, bs, s);
            byte_rune_ids(r, bs)->0
        };
        assert(symbols_ids(v, runes, syms) == Some(front + ids_s));
        lemma_tokens_text_concat(idstr, front, ids_s);
    }
}

/// One non-empty covered word gets ids whose text gives the word back.
proof fn lemma_word_trip(t: Tokenizer, w: Seq<char>)
    requires
        trip_ready(t),
        w.len() > 0,
        word_covered(t, w),
        t.runes() is None ==> is_ascii_chars(w),
    ensures
        t.word_ids(w) matches Some(ids) && tokens_text(t.id_strings(), ids) matches Some(raw)
            && restore(t.runes() is Some, raw) == Some(w),
{
    let r = t.runes() is Some;
    let v = t.vocab();
    match lookup(t.special_ids(), w) {
        Some(id) => {
            assert(lookup(v, w) == Some(id));
            let j = key_pos(v, w);
            lemma_id_strings_at(v, j);
            assert(seq![id].drop_last() == Seq::<u32>::empty());
            assert(seq![id].last() == id);
            assert(Seq::<char>::empty() + w == w);
            assert(tokens_text(t.id_strings(), Seq::<u32>::empty()) == Some(Seq::<char>::empty()));
            if !r {
                lemma_unbyte_printable(w);
            }
        },
        None => {
            let f = to_unicode_spec(r, w);
            if !r {
                lemma_to_unicode_ascii(r, w);
            }
            let syms = bpe_merge(t.ranks(), singletons(f));
            lemma_bpe_spells_fragment(t.ranks(), f);
            lemma_symbols_trip(v, t.runes(), syms);
            syms.lemma_flatten_and_flatten_alt_are_equivalent();
            if !r {
                lemma_unbyte_ascii(f, w);
            }
        },
    }
}

/// Non-empty covered words get ids whose text gives the words back, one
/// after another.
proof fn lemma_words_trip(t: Tokenizer, ws: Seq<Seq<char>>)
    requires
        trip_ready(t),
        forall|i: int| 0 <= i < ws.len() ==> (#[trigger] ws[i]).len() > 0 && word_covered(t, ws[i])
            && (t.runes() is None ==> is_ascii_chars(ws[i])),
    ensures
        t.words_ids(ws) matches Some(ids) && tokens_text(t.id_strings(), ids) matches Some(raw)
            && restore(t.runes() is Some, raw) == Some(ws.flatten_alt()),
    decreases ws.len(),
{
    let r = t.runes() is Some;
    if ws.len() == 0 {
        assert(unbyte(Seq::<char>::empty()) == Some(Seq::<char>::empty()));
    } else {
        let d = ws.drop_last();
        assert forall|i: int| 0 <= i < d.len() implies (#[trigger] d[i]).len() > 0 && word_covered(t, d[i])
            && (t.runes() is None ==> is_ascii_chars(d[i])) by {
            assert(d[i] == ws[i]);
        }
        lemma_words_trip(t, d);
        assert(ws[ws.len() - 1] == ws.last());
        lemma_word_trip(t, ws.last());
        let a = t.words_ids(d)->0;
        let b = t.word_ids(ws.last())->0;
        lemma_tokens_text_concat(t.id_strings(), a, b);
        let ra = tokens_text(t.id_strings(), a)->0;
        let rb = tokens_text(t.id_strings(), b)->0;
        lemma_restore_concat(r, ra, rb);
    }
}

/// The facts about a tokenizer built from valid inputs that the round trip
/// uses, and about the words of a text whose pattern tiles it: splitting
/// ends and gives non-empty words that spell the text.
proof fn lemma_built_words(
    t: Tokenizer,
    vocab: Seq<(Seq<char>, u32)>,
    merges: Seq<Seq<Seq<char>>>,
    specials: Seq<Seq<char>>,
    pattern: Seq<char>,
    text: Seq<char>,
)
    requires
        t.built_from(vocab, merges, specials, pattern),
        valid_config(vocab, merges, specials, pattern),
        t.splits(text),
        pieces_text(split_pieces(t.special_set(), text)) == text,
        pattern_tiles(pattern, text),
    ensures
        forall|w: Seq<char>| #[trigger] lookup(t.special_ids(), w) is Some ==> specials.contains(w)
            && lookup(t.vocab(), w) == lookup(t.special_ids(), w),
        forall|k: Seq<char>| #[trigger] t.ranks().contains_key(k) ==> exists|m: int| 0 <= m < merges.len() && k == joined(#[trigger] merges[m]),
        forall|m: int| 0 <= m < merges.len() ==> has_key(t.vocab(), joined(#[trigger] merges[m])),
        split_words_spec(t.special_set(), pattern, text) matches Some(ws) && ws.flatten_alt() == text
            && forall|i: int| 0 <= i < ws.len() ==> (#[trigger] ws[i]).len() > 0,
{
    let sp = t.special_set();
    let v = vocab_entries(vocab);
    assert forall|i: int| 0 <= i < specials.len() implies has_key(v, #[trigger] specials[i]) by {
    }
    assert forall|w: Seq<char>| #[trigger] lookup(t.special_ids(), w) is Some implies specials.contains(w)
        && lookup(t.vocab(), w) == lookup(t.special_ids(), w) by {
        lemma_special_id(v, specials, t.special_ids(), w);
    }
    assert forall|k: Seq<char>| #[trigger] t.ranks().contains_key(k) implies exists|m: int| 0 <= m < merges.len()
        && k == joined(#[trigger] merges[m]) by {
        lemma_merge_ranks_keys(merges, k);
    }
    let fuel = split_fuel(sp, text);
    let ps = split_pieces(sp, text);
    lemma_run_nonempty(sp, text, split_start(), fuel);
    lemma_pieces_occur(ps);
    lemma_piece_words_spell(pattern, text, ps);
}

/// Decoding gives back the text that was encoded. This holds for a
/// tokenizer built from inputs that building accepts, whose vocabulary
/// entries have distinct ids and whose special tokens do not begin with
/// `0x` and are printable when there are no byte runes; and for a text
/// whose splitting ends with pieces that spell the text again (as it does
/// for every text when the special tokens are ASCII), that the pattern
/// tiles (its matches in every stretch are non-empty and spell it), that is
/// ASCII when there are no byte runes, and each of whose words is covered:
/// a special token, or a word whose merged symbols are tokens not beginning
/// with `0x` or, with byte runes, ASCII with a rune for each byte. The text
/// is then encoded and decoded again to itself.
pub proof fn lemma_decode_encode(
    t: Tokenizer,
    vocab: Seq<(Seq<char>, u32)>,
    merges: Seq<Seq<Seq<char>>>,
    specials: Seq<Seq<char>>,
    pattern: Seq<char>,
    text: Seq<char>,
)
    requires
        t.built_from(vocab, merges, specials, pattern),
        valid_config(vocab, merges, specials, pattern),
        ids_distinct(t.vocab()),
        forall|s: Seq<char>| #[trigger] specials.contains(s) ==> !has_hex_prefix(s) && (t.runes() is None ==> printable_text(s)),
        t.splits(text),
        pieces_text(split_pieces(t.special_set(), text)) == text,
        pattern_tiles(pattern, text),
        t.runes() is None ==> is_ascii_chars(text),
        split_words_spec(t.special_set(), pattern, text) matches Some(ws) ==> forall|i: int| 0 <= i < ws.len()
            ==> word_covered(t, #[trigger] ws[i]),
    ensures
        t.encode_spec(text) is Some,
        t.decode_spec(t.encode_spec(text)->0) == Some(text),
{
    lemma_built_words(t, vocab, merges, specials, pattern, text);
    let ws = split_words_spec(t.special_set(), pattern, text)->0;
    assert(trip_ready(t));
    if t.runes() is None {
        ws.lemma_flatten_and_flatten_alt_are_equivalent();
        lemma_flatten_ascii(ws);
    }
    assert forall|i: int| 0 <= i < ws.len() implies (#[trigger] ws[i]).len() > 0 && word_covered(t, ws[i])
        && (t.runes() is None ==> is_ascii_chars(ws[i])) by {
    }
    lemma_words_trip(t, ws);
    let ids = t.words_ids(ws)->0;
    assert(t.encode_spec(text) == Some(ids));
    lemma_tokens_text_decode(t.id_strings(), ids);
}

/// Every character of a word occurs in the text that the words spell.
proof fn lemma_flatten_alt_has(ws: Seq<Seq<char>>, i: int, k: int)
    requires
        0 <= i < ws.len(),
        0 <= k < ws[i].len(),
    ensures
        ws.flatten_alt().contains(ws[i][k]),
    decreases ws.len(),
{
    let d = ws.drop_last();
    let f = d.flatten_alt();
    assert(ws.flatten_alt() == f + ws.last());
    if i < d.len() {
        assert(d[i] == ws[i]);
        lemma_flatten_alt_has(d, i, k);
        let j = choose|j: int| 0 <= j < f.len() && f[j] == ws[i][k];
        assert((f + ws.last())[j] == ws[i][k]);
    } else {
        assert((f + ws.last())[f.len() + k] == ws[i][k]);
    }
}

/// Decoding gives back the text that was encoded, stated on the text's own
/// characters. This holds for a tokenizer built from inputs that building
/// accepts, whose vocabulary entries have distinct ids, no merge of which
/// joins to a string beginning with `0x`, and whose special tokens do not
/// begin with `0x` and are printable when there are no byte runes; and for
/// a text whose splitting ends with pieces that spell it again, that the
/// pattern tiles, and in which, without byte
/// runes, every character is ASCII and its byte character is a token, and,
/// with byte runes, every character is a token or is ASCII with a rune.
pub proof fn lemma_decode_encode_chars(
    t: Tokenizer,
    vocab: Seq<(Seq<char>, u32)>,
    merges: Seq<Seq<Seq<char>>>,
    specials: Seq<Seq<char>>,
    pattern: Seq<char>,
    text: Seq<char>,
)
    requires
        t.built_from(vocab, merges, specials, pattern),
        valid_config(vocab, merges, specials, pattern),
        ids_distinct(t.vocab()),
        forall|m: int| 0 <= m < merges.len() ==> !has_hex_prefix(joined(#[trigger] merges[m])),
        forall|s: Seq<char>| #[trigger] specials.contains(s) ==> !has_hex_prefix(s) && (t.runes() is None ==> printable_text(s)),
        t.splits(text),
        pieces_text(split_pieces(t.special_set(), text)) == text,
        pattern_tiles(pattern, text),
        t.runes() is None ==> is_ascii_chars(text),
        t.runes() is None ==> forall|i: int| 0 <= i < text.len() ==> has_key(t.vocab(), #[trigger] to_unicode_spec(false, seq![text[i]])),
        t.runes() matches Some(e) ==> forall|i: int| 0 <= i < text.len() ==> has_key(t.vocab(), seq![#[trigger] text[i]])
            || ((text[i] as u32) < 128 && lookup(e, decimal((text[i] as u32) as nat)) is Some),
    ensures
        t.encode_spec(text) is Some,
        t.decode_spec(t.encode_spec(text)->0) == Some(text),
{
    lemma_built_words(t, vocab, merges, specials, pattern, text);
    let ws = split_words_spec(t.special_set(), pattern, text)->0;
    let r = t.runes() is Some;
    let v = t.vocab();
    if !r {
        ws.lemma_flatten_and_flatten_alt_are_equivalent();
        lemma_flatten_ascii(ws);
    }
    assert forall|i: int| 0 <= i < ws.len() implies word_covered(t, #[trigger] ws[i]) by {
        let w = ws[i];
        let f = to_unicode_spec(r, w);
        if !r {
            lemma_to_unicode_ascii(r, w);
        }
        let syms = bpe_merge(t.ranks(), singletons(f));
        lemma_bpe_merge_parts(t.ranks(), singletons(f));
        assert forall|q: int| 0 <= q < syms.len() implies symbol_covered(v, t.runes(), #[trigger] syms[q]) by {
            if singletons(f).contains(syms[q]) {
                let k = choose|k: int| 0 <= k < singletons(f).len() && singletons(f)[k] == syms[q];
                assert(syms[q] == seq![f[k]]);
                lemma_flatten_alt_has(ws, i, k);
                let j = choose|j: int| 0 <= j < text.len() && text[j] == w[k];
                assert(text[j] == w[k]);
                if !r {
                    assert(to_unicode_spec(false, seq![w[k]]) == seq![f[k]]);
                    assert(has_key(v, to_unicode_spec(false, seq![text[j]])));
                } else {
                    assert(f == w);
                    assert(seq![text[j]] == syms[q]);
                    if !has_key(v, seq![text[j]]) {
                        let e = t.runes()->0;
                        assert((text[j] as u32) < 128 && lookup(e, decimal((text[j] as u32) as nat)) is Some);
                        assert(is_ascii_chars(syms[q])) by {
                            assert(syms[q][0] == text[j]);
                            lemma_ascii_code(text[j]);
                        }
                        assert forall|kk: int| 0 <= kk < syms[q].len() implies lookup(e, decimal((#[trigger] syms[q][kk] as u32) as nat)) is Some by {
                            assert(syms[q][kk] == text[j]);
                        }
                    }
                }
            } else {
                assert(t.ranks().contains_key(syms[q]));
                let m = choose|m: int| 0 <= m < merges.len() && syms[q] == joined(#[trigger] merges[m]);
                assert(has_key(v, joined(merges[m])));
            }
        }
    }
    lemma_decode_encode(t, vocab, merges, specials, pattern, text);
}

/// Two runs of the walk from the same state that both end give the same
/// pieces.
pub proof fn lemma_run_agree(specials: Set<Seq<char>>, text: Seq<char>, st: SplitState, f1: nat, f2: nat)
    requires
        split_run(specials, text, st, f1) is Some,
        split_run(specials, text, st, f2) is Some,
    ensures
        split_run(specials, text, st, f1) == split_run(specials, text, st, f2),
    decreases f1,
{
    if st.pos < text.len() {
        let nx = split_step(specials, text, st)->0;
        lemma_run_agree(specials, text, nx, (f1 - 1) as nat, (f2 - 1) as nat);
    }
}

/// The walk over a special token, part way: the first `k` characters form
/// the candidate.
spec fn prefix_state(s: Seq<char>, k: int, last_full: Option<Seq<char>>) -> SplitState {
    SplitState { pos: k, acc: seq![], special: s.take(k), node: s.take(k), last_full, pieces: seq![] }
}

/// The walk over a special token grows the candidate to the whole token
/// and emits it as one piece.
proof fn lemma_special_walk(specials: Set<Seq<char>>, s: Seq<char>, k: int, last_full: Option<Seq<char>>, fuel: nat)
    requires
        specials.contains(s),
        0 <= k < s.len(),
        fuel >= s.len() - k,
    ensures
        split_run(specials, s, prefix_state(s, k, last_full), fuel) == Some(seq![Piece::Special(s)]),
    decreases s.len() - k,
{
    let st = prefix_state(s, k, last_full);
    assert(st.special.push(s[k]) == s.take(k + 1));
    assert(s.take(k + 1).is_prefix_of(s));
    let lf = if specials.contains(s.take(k + 1)) { Some(s.take(k + 1)) } else { last_full };
    assert(split_step(specials, s, st) == Some(prefix_state(s, k + 1, lf)));
    if k + 1 < s.len() {
        lemma_special_walk(specials, s, k + 1, lf, (fuel - 1) as nat);
    } else {
        assert(s.take(k + 1) == s);
        let fin = prefix_state(s, k + 1, lf);
        assert(s.skip(s.len() as int) == Seq::<char>::empty());
        assert(flush(Seq::<Piece>::empty(), Seq::<char>::empty(), s) == seq![Piece::Special(s)]);
        assert(split_finish(fin) == seq![Piece::Special(s)]);
    }
}

/// A special token on its own encodes to exactly its vocabulary id. This
/// holds for every special token of a tokenizer built from inputs that
/// building accepts.
pub proof fn lemma_special_alone(
    t: Tokenizer,
    vocab: Seq<(Seq<char>, u32)>,
    merges: Seq<Seq<Seq<char>>>,
    specials: Seq<Seq<char>>,
    pattern: Seq<char>,
    s: Seq<char>,
)
    requires
        t.built_from(vocab, merges, specials, pattern),
        valid_config(vocab, merges, specials, pattern),
        t.special_set().contains(s),
        s.len() > 0,
    ensures
        t.splits(s),
        lookup(t.vocab(), s) is Some,
        t.encode_spec(s) == Some(seq![lookup(t.vocab(), s)->0]),
{
    let sp = t.special_set();
    let fuel = s.len();
    assert(s.take(0) == Seq::<char>::empty());
    assert(split_start() == prefix_state(s, 0, None));
    lemma_special_walk(sp, s, 0, None, fuel);
    assert(split_run(sp, s, split_start(), fuel) is Some);
    assert(split_halts(sp, s));
    lemma_run_agree(sp, s, split_start(), split_fuel(sp, s), fuel);
    assert(split_pieces(sp, s) == seq![Piece::Special(s)]);
    let ps = seq![Piece::Special(s)];
    assert(ps.drop_last() == Seq::<Piece>::empty());
    assert(ps.last() == Piece::Special(s));
    assert(piece_words(pattern, Seq::<Piece>::empty()) == Some(Seq::<Seq<char>>::empty()));
    assert(Seq::<Seq<char>>::empty().push(s) == seq![s]);
    assert(piece_words(pattern, ps) == Some(seq![s]));
    let v = vocab_entries(vocab);
    assert forall|i: int| 0 <= i < specials.len() implies has_key(v, #[trigger] specials[i]) by {
    }
    assert(has_key(t.special_ids(), s));
    lemma_special_id(v, specials, t.special_ids(), s);
    let id = lookup(t.special_ids(), s)->0;
    assert(seq![s].drop_last() == Seq::<Seq<char>>::empty());
    assert(seq![s].last() == s);
    assert(t.words_ids(Seq::<Seq<char>>::empty()) == Some(Seq::<u32>::empty()));
    assert(t.word_ids(s) == Some(seq![id]));
    assert(Seq::<u32>::empty() + seq![id] == seq![id]);
}

} // verus!

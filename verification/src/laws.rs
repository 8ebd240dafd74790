//! Laws that pin down what the parts compute, stated in terms of their
//! inputs: byte-pair merging leaves no ranked pair and merges least ranks
//! first, the unicode need of whole characters is zero, and the byte table
//! is GPT-2's.
use vstd::prelude::*;
use vstd::utf8::{
    encode_utf8, encode_scalar, is_scalar, last_continuation_byte, leading_byte_width_1, leading_byte_width_2,
    leading_byte_width_3, leading_byte_width_4, second_last_continuation_byte, third_last_continuation_byte,
};
use crate::bpe::{bpe_merge, best_index, lemma_best_index, lemma_merge_shrinks, merge_pair, pair_at};
use crate::bytes::{byte_char, byte_code};
use crate::tokenizer::{need_run, need_step, unicode_need};

verus! {

/// Every rank in the table is below `usize::MAX`, as the position of a merge
/// in a list always is.
pub open spec fn ranks_below_max(ranks: Map<Seq<char>, usize>) -> bool {
    forall|k: Seq<char>| #[trigger] ranks.contains_key(k) ==> ranks[k] < usize::MAX
}

/// Byte-pair merging ends only when no adjacent pair of the merged symbols
/// has a rank in the merge table.
pub proof fn lemma_bpe_merge_no_ranked_pair(ranks: Map<Seq<char>, usize>, w: Seq<Seq<char>>)
    requires
        ranks_below_max(ranks),
    ensures
        forall|i: int| 0 <= i < bpe_merge(ranks, w).len() - 1
            ==> !ranks.contains_key(#[trigger] bpe_merge(ranks, w)[i] + bpe_merge(ranks, w)[i + 1]),
    decreases w.len(),
{
    if w.len() > 1 {
        let b = best_index(ranks, w, w.len() - 1);
        lemma_best_index(ranks, w, w.len() - 1);
        let r = bpe_merge(ranks, w);
        if !ranks.contains_key(w[b] + w[b + 1]) {
            assert(r == w);
            assert forall|i: int| 0 <= i < r.len() - 1 implies !ranks.contains_key(#[trigger] r[i] + r[i + 1]) by {
                assert(pair_at(ranks, w, b).rank <= pair_at(ranks, w, i).rank);
                if ranks.contains_key(w[i] + w[i + 1]) {
                    assert(ranks[w[i] + w[i + 1]] < usize::MAX);
                }
            }
        } else {
            lemma_merge_shrinks(w, w[b], w[b + 1], b);
            let m = merge_pair(w, w[b], w[b + 1]);
            assert(r == bpe_merge(ranks, m));
            lemma_bpe_merge_no_ranked_pair(ranks, m);
        }
    }
}

/// Each merge step joins the leftmost adjacent pair of least rank: when the
/// pair at `b` has a rank, no ranked pair has a smaller one, and every
/// ranked pair before it has a larger one, merging the word is merging the
/// word with that pair joined everywhere.
pub proof fn lemma_bpe_merge_least_first(ranks: Map<Seq<char>, usize>, w: Seq<Seq<char>>, b: int)
    requires
        ranks_below_max(ranks),
        0 <= b < w.len() - 1,
        ranks.contains_key(w[b] + w[b + 1]),
        forall|j: int| 0 <= j < w.len() - 1 && ranks.contains_key(#[trigger] (w[j] + w[j + 1]))
            ==> ranks[w[b] + w[b + 1]] <= ranks[w[j] + w[j + 1]],
        forall|j: int| 0 <= j < b && ranks.contains_key(#[trigger] (w[j] + w[j + 1]))
            ==> ranks[w[b] + w[b + 1]] < ranks[w[j] + w[j + 1]],
    ensures
        bpe_merge(ranks, w) == bpe_merge(ranks, merge_pair(w, w[b], w[b + 1])),
{
    let m = w.len() - 1;
    let b2 = best_index(ranks, w, m);
    lemma_best_index(ranks, w, m);
    assert(ranks[w[b] + w[b + 1]] < usize::MAX);
    if b2 < b {
        assert(pair_at(ranks, w, b2).rank <= pair_at(ranks, w, b).rank);
        if ranks.contains_key(w[b2] + w[b2 + 1]) {
            assert(ranks[w[b] + w[b + 1]] < ranks[w[b2] + w[b2 + 1]]);
        }
    }
    if b < b2 {
        assert(pair_at(ranks, w, b2).rank < pair_at(ranks, w, b).rank);
        if ranks.contains_key(w[b2] + w[b2 + 1]) {
            assert(ranks[w[b] + w[b + 1]] <= ranks[w[b2] + w[b2 + 1]]);
        }
    }
    assert(b2 == b);
}

/// The first symbol after merging a pair: the first two joined when they
/// are the pair, else the first as it was.
proof fn lemma_merge_pair_first(w: Seq<Seq<char>>, a: Seq<char>, b: Seq<char>)
    requires
        w.len() > 0,
    ensures
        merge_pair(w, a, b).len() > 0,
        merge_pair(w, a, b)[0] == if w.len() >= 2 && w[0] == a && w[1] == b { a + b } else { w[0] },
{
}

/// Merging a pair of non-empty symbols joins it everywhere: no adjacent
/// occurrence of the pair is left.
pub proof fn lemma_merge_pair_leaves_none(w: Seq<Seq<char>>, a: Seq<char>, b: Seq<char>)
    requires
        a.len() > 0,
        b.len() > 0,
    ensures
        forall|i: int| 0 <= i < merge_pair(w, a, b).len() - 1
            ==> !(#[trigger] merge_pair(w, a, b)[i] == a && merge_pair(w, a, b)[i + 1] == b),
    decreases w.len(),
{
    let r = merge_pair(w, a, b);
    if w.len() == 0 {
    } else if w.len() >= 2 && w[0] == a && w[1] == b {
        let rest = merge_pair(w.skip(2), a, b);
        lemma_merge_pair_leaves_none(w.skip(2), a, b);
        assert(r == seq![a + b] + rest);
        assert((a + b).len() > a.len());
        assert forall|i: int| 0 <= i < r.len() - 1 implies !(#[trigger] r[i] == a && r[i + 1] == b) by {
            if i > 0 {
                assert(r[i] == rest[i - 1] && r[i + 1] == rest[i]);
            } else {
                assert(r[0] == a + b);
                assert(r[0] != a);
            }
        }
    } else {
        let rest = merge_pair(w.skip(1), a, b);
        lemma_merge_pair_leaves_none(w.skip(1), a, b);
        assert(r == seq![w[0]] + rest);
        assert forall|i: int| 0 <= i < r.len() - 1 implies !(#[trigger] r[i] == a && r[i + 1] == b) by {
            if i > 0 {
                assert(r[i] == rest[i - 1] && r[i + 1] == rest[i]);
            } else {
                let v = w.skip(1);
                lemma_merge_pair_first(v, a, b);
                assert(r[1] == rest[0]);
                if v.len() >= 2 && v[0] == a && v[1] == b {
                    assert(rest[0] == a + b);
                    assert((a + b).len() > b.len());
                } else {
                    assert(rest[0] == v[0]);
                    assert(v[0] == w[1]);
                }
            }
        }
    }
}

/// The counts of UTF-8 need, carried on from a given state.
spec fn need_from(st: (int, int), bytes: Seq<u8>) -> (int, int)
    decreases bytes.len(),
{
    if bytes.len() == 0 {
        st
    } else {
        need_step(need_from(st, bytes.drop_last()), bytes.last())
    }
}

proof fn lemma_need_run_from(bytes: Seq<u8>)
    ensures
        need_run(bytes) == need_from((0, 0), bytes),
    decreases bytes.len(),
{
    if bytes.len() > 0 {
        lemma_need_run_from(bytes.drop_last());
    }
}

proof fn lemma_need_from_concat(st: (int, int), a: Seq<u8>, b: Seq<u8>)
    ensures
        need_from(st, a + b) == need_from(need_from(st, a), b),
    decreases b.len(),
{
    if b.len() == 0 {
        assert(a + b == a);
    } else {
        lemma_need_from_concat(st, a, b.drop_last());
        assert((a + b).drop_last() == a + b.drop_last());
        assert((a + b).last() == b.last());
    }
}

/// The bytes of one character: an ASCII byte, or a lead byte for its width
/// followed by continuation bytes.
proof fn lemma_scalar_bytes(s: u32)
    requires
        is_scalar(s),
    ensures
        encode_scalar(s).len() == 1 ==> encode_scalar(s)[0] < 0x80,
        encode_scalar(s).len() == 2 ==> 0xC0 <= encode_scalar(s)[0] < 0xE0,
        encode_scalar(s).len() == 3 ==> 0xE0 <= encode_scalar(s)[0] < 0xF0,
        encode_scalar(s).len() == 4 ==> 0xF0 <= encode_scalar(s)[0] < 0xF8,
        1 <= encode_scalar(s).len() <= 4,
        forall|k: int| 1 <= k < encode_scalar(s).len() ==> 0x80 <= #[trigger] encode_scalar(s)[k] < 0xC0,
{
    assert(leading_byte_width_1(s) < 0x80) by (bit_vector);
    assert(0x80 <= last_continuation_byte(s) < 0xC0) by (bit_vector);
    assert(0x80 <= second_last_continuation_byte(s) < 0xC0) by (bit_vector);
    assert(0x80 <= third_last_continuation_byte(s) < 0xC0) by (bit_vector);
    assert(0xC0 <= leading_byte_width_2(s) < 0xE0) by (bit_vector);
    assert(0xE0 <= leading_byte_width_3(s) < 0xF0) by (bit_vector);
    assert(0xF0 <= leading_byte_width_4(s) < 0xF8) by (bit_vector);
}

/// The bytes of one character, walked from a count of zero, end at zero
/// having never gone below it; every proper prefix of them leaves as many
/// continuation bytes pending as are still to come.
proof fn lemma_need_scalar(s: u32)
    requires
        is_scalar(s),
    ensures
        need_from((0, 0), encode_scalar(s)) == (0int, 0int),
        forall|k: int| 1 <= k < encode_scalar(s).len() ==> #[trigger] need_run(encode_scalar(s).take(k))
            == (encode_scalar(s).len() - k, 0int),
{
    let e = encode_scalar(s);
    lemma_scalar_bytes(s);
    lemma_need_run_from(e);
    let t1 = e.take(1);
    assert(t1.drop_last() == Seq::<u8>::empty());
    assert(t1.last() == e[0]);
    assert(need_run(Seq::<u8>::empty()) == (0int, 0int));
    assert(need_run(t1) == need_step((0, 0), e[0]));
    let n0: int = if e.len() == 1 { 0 } else { e.len() - 1 };
    assert(need_run(t1) == (n0, 0int));
    if e.len() >= 2 {
        let t2 = e.take(2);
        assert(t2.drop_last() == t1);
        assert(t2.last() == e[1]);
        assert(0x80 <= e[1] < 0xC0);
        assert(need_run(t2) == (e.len() - 2, 0int));
        if e.len() >= 3 {
            let t3 = e.take(3);
            assert(t3.drop_last() == t2);
            assert(t3.last() == e[2]);
            assert(0x80 <= e[2] < 0xC0);
            assert(need_run(t3) == (e.len() - 3, 0int));
            if e.len() >= 4 {
                let t4 = e.take(4);
                assert(t4.drop_last() == t3);
                assert(t4.last() == e[3]);
                assert(0x80 <= e[3] < 0xC0);
                assert(need_run(t4) == (e.len() - 4, 0int));
            }
        }
    }
    assert(e.take(e.len() as int) == e);
}

/// The UTF-8 bytes of any text, walked from zero, end at zero having never
/// gone below it.
proof fn lemma_need_text(s: Seq<char>)
    ensures
        need_run(encode_utf8(s)) == (0int, 0int),
    decreases s.len(),
{
    if s.len() > 0 {
        let c = s[0] as u32;
        vstd::utf8::char_is_scalar(s[0]);
        lemma_need_text(s.drop_first());
        lemma_need_scalar(c);
        lemma_need_from_concat((0, 0), encode_scalar(c), encode_utf8(s.drop_first()));
        lemma_need_run_from(encode_utf8(s));
        lemma_need_run_from(encode_utf8(s.drop_first()));
    } else {
        assert(encode_utf8(s) == Seq::<u8>::empty());
    }
}

/// The UTF-8 encoding of any string, a whole number of complete characters,
/// needs nothing: its unicode need is zero.
pub proof fn lemma_unicode_need_whole_text(s: Seq<char>)
    ensures
        unicode_need(encode_utf8(s)) == 0,
{
    lemma_need_text(s);
}

/// The first `k` bytes of a character's UTF-8 encoding leave pending as
/// many continuation bytes as remain: a lead byte of an `n`-byte character
/// alone needs `n - 1`.
pub proof fn lemma_unicode_need_pending(c: char, k: int)
    requires
        1 <= k < encode_utf8(seq![c]).len(),
    ensures
        unicode_need(encode_utf8(seq![c]).take(k)) == encode_utf8(seq![c]).len() - k,
{
    vstd::utf8::char_is_scalar(c);
    let e = encode_scalar(c as u32);
    assert(seq![c].drop_first() == Seq::<char>::empty());
    assert(encode_utf8(Seq::<char>::empty()) == Seq::<u8>::empty());
    assert(encode_utf8(seq![c]) == e + Seq::<u8>::empty());
    assert(e + Seq::<u8>::empty() == e);
    lemma_need_scalar(c as u32);
    assert(need_run(e.take(k)) == (e.len() - k, 0int));
}

/// Whether byte `b` is one of GPT-2's bytes that stand for themselves:
/// `!`..=`~`, `¡`..=`¬` and `®`..=`ÿ`.
pub open spec fn gpt2_keeps(b: nat) -> bool {
    (33 <= b && b <= 126) || (161 <= b && b <= 172) || (174 <= b && b <= 255)
}

/// How many bytes below `b` GPT-2 does not keep as themselves.
pub open spec fn gpt2_moved_below(b: nat) -> nat
    decreases b,
{
    if b == 0 {
        0
    } else {
        gpt2_moved_below((b - 1) as nat) + if gpt2_keeps((b - 1) as nat) { 0nat } else { 1nat }
    }
}

proof fn lemma_moved_below(b: nat)
    requires
        b <= 256,
    ensures
        gpt2_moved_below(b) == if b <= 33 {
            b
        } else if b <= 127 {
            33
        } else if b <= 161 {
            (b - 94) as nat
        } else if b <= 173 {
            67
        } else {
            68
        },
    decreases b,
{
    if b > 0 {
        lemma_moved_below((b - 1) as nat);
    }
}

/// The byte table is GPT-2's: byte `b` stands for itself exactly when it is
/// in `33..=126`, `161..=172` or `174..=255`, and otherwise for the
/// character 256 plus the number of earlier bytes outside those ranges; so
/// byte 0xAD stands for U+0143.
pub proof fn lemma_byte_table_is_gpt2(b: nat)
    requires
        b < 256,
    ensures
        byte_code(b) == if gpt2_keeps(b) { b } else { 256 + gpt2_moved_below(b) },
        byte_char(0xAD) == '\u{143}',
{
    lemma_moved_below(b);
    lemma_moved_below(0xAD);
    crate::bytes::lemma_byte_char_code(0xAD);
    assert(byte_code(0xAD) == 0x143);
    vstd::utf8::char_u32_cast('\u{143}', 0x143);
}

} // verus!

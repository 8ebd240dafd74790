//! How encoding treats a special token standing between two texts: the
//! encoding of the whole is the encoding of the text before it, the token's
//! id, and the encoding of the text after it.
use vstd::prelude::*;
use crate::collections::{has_key, lookup};
use crate::split::{
    flush, note_full, piece_words, split_fuel, split_halts, split_pieces, split_run, split_start,
    split_step, byte_len, Piece, SplitState,
};
use crate::tokenizer::{valid_config, vocab_entries, Tokenizer};
use crate::trie::begins_special;
use crate::roundtrip::{lemma_run_agree, lemma_special_id};

verus! {

/// No special token begins with any character of `s`.
pub open spec fn no_special_starts(specials: Set<Seq<char>>, s: Seq<char>) -> bool {
    forall|i: int| 0 <= i < s.len() ==> !begins_special(specials, seq![#[trigger] s[i]])
}

/// The recorded special token after walking plain characters from `k` to
/// `m`: the empty token when it is special and some character was walked.
pub open spec fn plain_last_full(specials: Set<Seq<char>>, st: SplitState, k: int, m: int) -> Option<Seq<char>> {
    if m > k && specials.contains(Seq::<char>::empty()) {
        Some(Seq::<char>::empty())
    } else {
        st.last_full
    }
}

/// Walking characters that begin no special token gathers them as ordinary
/// text.
proof fn lemma_walk_plain(specials: Set<Seq<char>>, text: Seq<char>, st: SplitState, m: int, fuel: nat)
    requires
        st.special == Seq::<char>::empty(),
        st.node == Seq::<char>::empty(),
        0 <= st.pos <= m <= text.len(),
        fuel >= m - st.pos,
        no_special_starts(specials, text.subrange(st.pos, m)),
    ensures
        split_run(specials, text, st, fuel) == split_run(specials, text, SplitState {
            pos: m, acc: st.acc + text.subrange(st.pos, m), special: seq![], node: seq![],
            last_full: plain_last_full(specials, st, st.pos, m), pieces: st.pieces,
        }, (fuel - (m - st.pos)) as nat),
    decreases m - st.pos,
{
    let k = st.pos;
    if k == m {
        assert(st.acc + text.subrange(k, m) == st.acc);
        assert(st == SplitState {
            pos: m, acc: st.acc + text.subrange(st.pos, m), special: seq![], node: seq![],
            last_full: plain_last_full(specials, st, st.pos, m), pieces: st.pieces,
        });
    } else {
        let c = text[k];
        assert(text.subrange(k, m)[0] == c);
        assert(!begins_special(specials, seq![c]));
        assert(st.node.push(c) == seq![c]);
        let nx = note_full(specials, SplitState {
            pos: k + 1, acc: st.acc.push(c), special: st.special, node: st.node, last_full: st.last_full, pieces: st.pieces,
        });
        assert(split_step(specials, text, st) == Some(nx));
        assert forall|i: int| 0 <= i < text.subrange(k + 1, m).len() implies !begins_special(specials, seq![#[trigger] text.subrange(k + 1, m)[i]]) by {
            assert(text.subrange(k + 1, m)[i] == text.subrange(k, m)[i + 1]);
        }
        lemma_walk_plain(specials, text, nx, m, (fuel - 1) as nat);
        assert(st.acc.push(c) + text.subrange(k + 1, m) == st.acc + text.subrange(k, m));
        assert(plain_last_full(specials, nx, k + 1, m) == plain_last_full(specials, st, k, m));
    }
}

/// Walking plain characters to the end of the text emits what was gathered.
proof fn lemma_walk_plain_end(specials: Set<Seq<char>>, text: Seq<char>, st: SplitState, fuel: nat)
    requires
        st.special == Seq::<char>::empty(),
        st.node == Seq::<char>::empty(),
        0 <= st.pos <= text.len(),
        fuel >= text.len() - st.pos,
        no_special_starts(specials, text.skip(st.pos)),
    ensures
        split_run(specials, text, st, fuel) == Some(flush(st.pieces, st.acc + text.skip(st.pos), seq![])),
{
    assert(text.skip(st.pos) == text.subrange(st.pos, text.len() as int));
    lemma_walk_plain(specials, text, st, text.len() as int, fuel);
}

/// Walking a special token that no other special token extends, then plain
/// characters to the end, emits the text before it, the token, and the
/// text after it.
proof fn lemma_walk_special(
    specials: Set<Seq<char>>,
    text: Seq<char>,
    sp: Seq<char>,
    p0: int,
    m: int,
    acc: Seq<char>,
    last_full: Option<Seq<char>>,
    pieces: Seq<Piece>,
    fuel: nat,
)
    requires
        specials.contains(sp),
        sp.len() > 0,
        forall|s: Seq<char>| #[trigger] specials.contains(s) && sp.is_prefix_of(s) ==> s == sp,
        0 <= p0,
        p0 + sp.len() <= text.len(),
        text.subrange(p0, p0 + sp.len()) == sp,
        0 <= m < sp.len(),
        no_special_starts(specials, text.skip(p0 + sp.len())),
        fuel >= text.len() - p0 - m + 1,
    ensures
        split_run(specials, text, SplitState {
            pos: p0 + m, acc, special: sp.take(m), node: sp.take(m), last_full, pieces,
        }, fuel) == Some(flush(flush(pieces, acc, sp), text.skip(p0 + sp.len()), seq![])),
    decreases sp.len() - m,
{
    let st = SplitState { pos: p0 + m, acc, special: sp.take(m), node: sp.take(m), last_full, pieces };
    let c = text[p0 + m];
    assert(c == sp[m]);
    assert(sp.take(m).push(c) == sp.take(m + 1));
    assert(sp.take(m + 1).is_prefix_of(sp));
    assert(begins_special(specials, sp.take(m + 1)));
    let lf = if specials.contains(sp.take(m + 1)) { Some(sp.take(m + 1)) } else { last_full };
    let nx = SplitState { pos: p0 + m + 1, acc, special: sp.take(m + 1), node: sp.take(m + 1), last_full: lf, pieces };
    assert(split_step(specials, text, st) == Some(nx));
    assert(split_run(specials, text, st, fuel) == split_run(specials, text, nx, (fuel - 1) as nat));
    if m + 1 < sp.len() {
        lemma_walk_special(specials, text, sp, p0, m + 1, acc, lf, pieces, (fuel - 1) as nat);
    } else {
        assert(sp.take(m + 1) == sp);
        assert(lf == Some(sp));
        let pos = p0 + sp.len();
        let rest = text.skip(pos);
        if pos >= text.len() {
            assert(sp.skip(sp.len() as int) == Seq::<char>::empty());
            assert(rest == Seq::<char>::empty());
            assert(split_run(specials, text, nx, (fuel - 1) as nat) == Some(crate::split::split_finish(nx)));
        } else {
            let c2 = text[pos];
            assert(rest[0] == c2);
            assert(!begins_special(specials, seq![c2]));
            assert(!begins_special(specials, sp.push(c2))) by {
                if begins_special(specials, sp.push(c2)) {
                    let s = choose|s: Seq<char>| #[trigger] specials.contains(s) && sp.push(c2).is_prefix_of(s);
                    assert(sp.is_prefix_of(s));
                    assert(s.len() > sp.len());
                }
            }
            assert(sp.skip(sp.len() as int) == Seq::<char>::empty());
            assert(byte_len(Seq::<char>::empty()) == 0);
            let after = note_full(specials, SplitState {
                pos, acc: seq![], special: seq![], node: seq![], last_full: None, pieces: flush(pieces, acc, sp),
            });
            assert(split_step(specials, text, nx) == Some(after));
            assert(split_run(specials, text, nx, (fuel - 1) as nat) == split_run(specials, text, after, (fuel - 2) as nat));
            lemma_walk_plain_end(specials, text, after, (fuel - 2) as nat);
            assert(Seq::<char>::empty() + rest == rest);
        }
    }
}

/// The words of pieces placed one after the other.
proof fn lemma_piece_words_concat(pattern: Seq<char>, a: Seq<Piece>, b: Seq<Piece>)
    ensures
        piece_words(pattern, a + b) == match (piece_words(pattern, a), piece_words(pattern, b)) {
            (Some(x), Some(y)) => Some(x + y),
            _ => None,
        },
    decreases b.len(),
{
    if b.len() == 0 {
        assert(a + b == a);
        match piece_words(pattern, a) {
            Some(x) => {
                assert(x + Seq::<Seq<char>>::empty() == x);
            },
            None => {},
        }
    } else {
        lemma_piece_words_concat(pattern, a, b.drop_last());
        assert((a + b).drop_last() == a + b.drop_last());
        assert((a + b).last() == b.last());
        match (piece_words(pattern, a), piece_words(pattern, b.drop_last())) {
            (Some(x), Some(y)) => {
                match b.last() {
                    Piece::Special(s) => {
                        assert((x + y).push(s) == x + y.push(s));
                    },
                    Piece::Text(t) => {
                        match crate::split::regex_matches(pattern, t) {
                            Some(f) => {
                                assert(x + y + f == x + (y + f));
                            },
                            None => {},
                        }
                    },
                }
            },
            _ => {},
        }
    }
}

/// The ids of words placed one after the other.
proof fn lemma_words_ids_concat(t: Tokenizer, a: Seq<Seq<char>>, b: Seq<Seq<char>>)
    ensures
        t.words_ids(a + b) == match (t.words_ids(a), t.words_ids(b)) {
            (Some(x), Some(y)) => Some(x + y),
            _ => None,
        },
    decreases b.len(),
{
    if b.len() == 0 {
        assert(a + b == a);
        match t.words_ids(a) {
            Some(x) => {
                assert(x + Seq::<u32>::empty() == x);
            },
            None => {},
        }
    } else {
        lemma_words_ids_concat(t, a, b.drop_last());
        assert((a + b).drop_last() == a + b.drop_last());
        assert((a + b).last() == b.last());
        match (t.words_ids(a), t.words_ids(b.drop_last()), t.word_ids(b.last())) {
            (Some(x), Some(y), Some(z)) => {
                assert(x + y + z == x + (y + z));
            },
            _ => {},
        }
    }
}

/// The pieces of a text alone: the text as one stretch, when it is not
/// empty.
pub open spec fn text_pieces(s: Seq<char>) -> Seq<Piece> {
    if s.len() > 0 { seq![Piece::Text(s)] } else { seq![] }
}

/// A text in which no special token begins is split into itself alone.
proof fn lemma_plain_pieces(specials: Set<Seq<char>>, s: Seq<char>)
    requires
        no_special_starts(specials, s),
    ensures
        split_halts(specials, s),
        split_pieces(specials, s) == text_pieces(s),
{
    let fuel = (s.len() + 1) as nat;
    assert(s.skip(0) == s);
    lemma_walk_plain_end(specials, s, split_start(), fuel);
    assert(Seq::<char>::empty() + s == s);
    assert(split_run(specials, s, split_start(), fuel) is Some);
    lemma_run_agree(specials, s, split_start(), split_fuel(specials, s), fuel);
    if s.len() == 0 {
        assert(flush(Seq::<Piece>::empty(), s, seq![]) == Seq::<Piece>::empty());
    } else {
        assert(flush(Seq::<Piece>::empty(), s, seq![]) == seq![Piece::Text(s)]);
    }
}

/// Encoding distributes over a special token standing between two texts.
/// This holds for a tokenizer built from valid inputs, a non-empty special
/// token that no other special token extends, and two texts none of whose
/// characters begins a special token: the encoding of the whole is the
/// encoding of the first text, the token's vocabulary id, and the encoding
/// of the second text (and fails exactly when one of those fails).
pub proof fn lemma_encode_around_special(
    t: Tokenizer,
    vocab: Seq<(Seq<char>, u32)>,
    merges: Seq<Seq<Seq<char>>>,
    specials: Seq<Seq<char>>,
    pattern: Seq<char>,
    s1: Seq<char>,
    sp: Seq<char>,
    s2: Seq<char>,
)
    requires
        t.built_from(vocab, merges, specials, pattern),
        valid_config(vocab, merges, specials, pattern),
        t.special_set().contains(sp),
        sp.len() > 0,
        forall|s: Seq<char>| #[trigger] t.special_set().contains(s) && sp.is_prefix_of(s) ==> s == sp,
        no_special_starts(t.special_set(), s1),
        no_special_starts(t.special_set(), s2),
    ensures
        t.splits(s1 + sp + s2),
        t.splits(s1),
        t.splits(s2),
        lookup(t.vocab(), sp) is Some,
        t.encode_spec(s1 + sp + s2) == match (t.encode_spec(s1), t.encode_spec(s2)) {
            (Some(a), Some(b)) => Some(a + seq![lookup(t.vocab(), sp)->0] + b),
            _ => None,
        },
{
    let sps = t.special_set();
    let text = s1 + sp + s2;
    let n1 = s1.len() as int;
    let p0 = n1;
    let fuel = (text.len() + 2) as nat;
    assert(text.subrange(0, n1) == s1);
    assert(text.subrange(p0, p0 + sp.len()) == sp);
    assert(text.skip(p0 + sp.len()) == s2);
    let st0 = split_start();
    lemma_walk_plain(sps, text, st0, n1, fuel);
    let lf = plain_last_full(sps, st0, 0, n1);
    assert(Seq::<char>::empty() + s1 == s1);
    assert(sp.take(0) == Seq::<char>::empty());
    lemma_walk_special(sps, text, sp, p0, 0, s1, lf, seq![], (fuel - n1) as nat);
    let whole = flush(flush(Seq::<Piece>::empty(), s1, sp), s2, seq![]);
    assert(split_run(sps, text, st0, fuel) == Some(whole));
    assert(split_halts(sps, text));
    lemma_run_agree(sps, text, st0, split_fuel(sps, text), fuel);
    assert(split_pieces(sps, text) == whole);
    assert(whole == text_pieces(s1) + seq![Piece::Special(sp)] + text_pieces(s2));
    lemma_plain_pieces(sps, s1);
    lemma_plain_pieces(sps, s2);
    assert(t.pattern() == pattern);
    let sp_piece = seq![Piece::Special(sp)];
    assert(sp_piece.drop_last() == Seq::<Piece>::empty());
    assert(sp_piece.last() == Piece::Special(sp));
    assert(piece_words(pattern, Seq::<Piece>::empty()) == Some(Seq::<Seq<char>>::empty()));
    assert(Seq::<Seq<char>>::empty().push(sp) == seq![sp]);
    assert(piece_words(pattern, sp_piece) == Some(seq![sp]));
    lemma_piece_words_concat(pattern, text_pieces(s1), sp_piece);
    lemma_piece_words_concat(pattern, text_pieces(s1) + sp_piece, text_pieces(s2));
    let ve = vocab_entries(vocab);
    assert forall|i: int| 0 <= i < specials.len() implies has_key(ve, #[trigger] specials[i]) by {
    }
    assert(has_key(t.special_ids(), sp));
    lemma_special_id(ve, specials, t.special_ids(), sp);
    let id = lookup(t.special_ids(), sp)->0;
    assert(seq![sp].drop_last() == Seq::<Seq<char>>::empty());
    assert(t.words_ids(Seq::<Seq<char>>::empty()) == Some(Seq::<u32>::empty()));
    assert(Seq::<u32>::empty() + seq![id] == seq![id]);
    assert(t.words_ids(seq![sp]) == Some(seq![id]));
    match (piece_words(pattern, text_pieces(s1)), piece_words(pattern, text_pieces(s2))) {
        (Some(w1), Some(w2)) => {
            lemma_words_ids_concat(t, w1, seq![sp]);
            lemma_words_ids_concat(t, w1 + seq![sp], w2);
        },
        _ => {},
    }
}

} // verus!

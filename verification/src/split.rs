//! Splitting text into words: special tokens are cut out while the text is
//! walked character by character through the special-token prefix tree, and
//! the text between them is split by the configured regular expression.
use vstd::prelude::*;
use vstd::utf8::encode_utf8;
use vstd::utf8::{is_ascii_chars, is_ascii_chars_encode_utf8};
use crate::text::{occurs_in, chars_of, string_of, utf8_len, lemma_utf8_len_push};
use crate::trie::{SpecialsTreeNode, begins_special};

verus! {

/// What the configured pattern finds in a text: the successive
/// non-overlapping matches, or `None` when the pattern does not compile or
/// matching fails.
pub uninterp spec fn regex_matches(pattern: Seq<char>, text: Seq<char>) -> Option<Seq<Seq<char>>>;

/// Whether the pattern compiles.
pub uninterp spec fn regex_valid(pattern: Seq<char>) -> bool;

/// `fancy_regex::Regex::new(pattern)`, compiled once, then `find_iter` on
/// each of the texts, each match taken as a string; `None` when a match
/// fails. The contract claims that each text's matches are the named
/// function of the pattern and that text, and that `None` comes only when
/// matching failed on some text.
#[verifier::external_body]
fn regex_find_each(pattern: &str, texts: &Vec<String>) -> (r: Option<Vec<Vec<String>>>)
    requires
        regex_valid(pattern@),
    ensures
        r matches Some(v) ==> v@.len() == texts@.len() && forall|i: int| 0 <= i < texts@.len()
            ==> regex_matches(pattern@, #[trigger] texts@[i]@) == Some(v@[i]@.map_values(|w: String| w@)),
        r is None ==> exists|i: int| 0 <= i < texts@.len() && regex_matches(pattern@, #[trigger] texts@[i]@) is None,
{
    let re = fancy_regex::Regex::new(pattern).ok()?;
    texts.iter().map(|t| re.find_iter(t).map(|m| m.map(|m| m.as_str().to_string())).collect::<Result<Vec<String>, _>>().ok()).collect()
}

/// `fancy_regex::Regex::new(pattern).is_ok()`: whether the pattern compiles.
#[verifier::external_body]
pub(crate) fn regex_compiles(pattern: &str) -> (r: bool)
    ensures
        r == regex_valid(pattern@),
{
    fancy_regex::Regex::new(pattern).is_ok()
}

/// A stretch of text to be split by the pattern, or a special token.
pub enum Piece {
    Text(Seq<char>),
    Special(Seq<char>),
}

/// The executable form of a `Piece`.
pub enum ExecPiece {
    Text(Vec<char>),
    Special(Vec<char>),
}

impl View for ExecPiece {
    type V = Piece;

    open spec fn view(&self) -> Piece {
        match self {
            ExecPiece::Text(t) => Piece::Text(t@),
            ExecPiece::Special(s) => Piece::Special(s@),
        }
    }
}

/// The state of the splitting walk: the position in the text, the ordinary
/// text gathered so far, the special-token candidate being matched, the path
/// of the prefix-tree node the walk stands at, the longest complete special
/// token seen in the candidate, and the pieces emitted. The node follows the
/// candidate, except that emitting an empty special token leaves it where
/// it was.
pub struct SplitState {
    pub pos: int,
    pub acc: Seq<char>,
    pub special: Seq<char>,
    pub node: Seq<char>,
    pub last_full: Option<Seq<char>>,
    pub pieces: Seq<Piece>,
}

/// The number of bytes of the UTF-8 encoding.
pub open spec fn byte_len(s: Seq<char>) -> int {
    encode_utf8(s).len() as int
}

/// The characters of an optional vector.
pub open spec fn opt_chars(o: Option<Vec<char>>) -> Option<Seq<char>> {
    match o {
        Some(v) => Some(v@),
        None => None,
    }
}

/// Emits the gathered text (when there is any) and then the special token
/// (when there is one).
pub open spec fn flush(pieces: Seq<Piece>, acc: Seq<char>, special: Seq<char>) -> Seq<Piece> {
    let p = if acc.len() > 0 { pieces.push(Piece::Text(acc)) } else { pieces };
    if special.len() > 0 { p.push(Piece::Special(special)) } else { p }
}

/// The walk's starting state.
pub open spec fn split_start() -> SplitState {
    SplitState { pos: 0, acc: seq![], special: seq![], node: seq![], last_full: None, pieces: seq![] }
}

/// Records the candidate as the last complete special token when the node
/// holds a special token equal to the candidate.
pub open spec fn note_full(specials: Set<Seq<char>>, st: SplitState) -> SplitState {
    if specials.contains(st.node) && st.special == st.node {
        SplitState { pos: st.pos, acc: st.acc, special: st.special, node: st.node, last_full: Some(st.special), pieces: st.pieces }
    } else {
        st
    }
}

/// One step of the walk at a position inside the text. While the node has a
/// child for the character, the walk moves to it and the candidate grows.
/// Otherwise: with no candidate the character is ordinary text; with a
/// candidate but no complete special token in it, its first character
/// becomes ordinary text, the walk goes back by the candidate's length in
/// bytes less one and returns to the root; else the complete special token
/// is emitted, the walk goes back by the byte length of the rest of the
/// candidate, and returns to the root unless that token is empty. `None`
/// when going back would pass the start.
pub open spec fn split_step(specials: Set<Seq<char>>, text: Seq<char>, st: SplitState) -> Option<SplitState> {
    let c = text[st.pos];
    if begins_special(specials, st.node.push(c)) {
        Some(note_full(specials, SplitState {
            pos: st.pos + 1, acc: st.acc, special: st.special.push(c), node: st.node.push(c), last_full: st.last_full,
            pieces: st.pieces,
        }))
    } else if st.special.len() == 0 {
        Some(note_full(specials, SplitState {
            pos: st.pos + 1, acc: st.acc.push(c), special: st.special, node: st.node, last_full: st.last_full,
            pieces: st.pieces,
        }))
    } else if st.last_full is None {
        let back = byte_len(st.special) - 1;
        if st.pos < back {
            None
        } else {
            Some(note_full(specials, SplitState {
                pos: st.pos - back, acc: st.acc.push(st.special[0]), special: seq![], node: seq![], last_full: None,
                pieces: st.pieces,
            }))
        }
    } else {
        let v = st.last_full->0;
        let back = byte_len(st.special.skip(v.len() as int));
        if st.pos < back {
            None
        } else {
            Some(note_full(specials, SplitState {
                pos: st.pos - back, acc: seq![], special: seq![], node: if v.len() > 0 { seq![] } else { st.node },
                last_full: None, pieces: flush(st.pieces, st.acc, v),
            }))
        }
    }
}

/// The pieces once the walk has passed the end of the text: a pending
/// candidate is emitted up to its last complete special token with the rest
/// as ordinary text, or, without one, becomes ordinary text entirely.
pub open spec fn split_finish(st: SplitState) -> Seq<Piece> {
    if st.special.len() > 0 {
        match st.last_full {
            Some(v) => flush(flush(st.pieces, st.acc, v), st.special.skip(v.len() as int), seq![]),
            None => flush(st.pieces, st.acc + st.special, seq![]),
        }
    } else {
        flush(st.pieces, st.acc, seq![])
    }
}

/// The walk from `st` with at most `fuel` steps: the pieces, or `None` when
/// it would go back past the start or needs more steps.
pub open spec fn split_run(specials: Set<Seq<char>>, text: Seq<char>, st: SplitState, fuel: nat) -> Option<Seq<Piece>>
    decreases fuel,
{
    if st.pos >= text.len() {
        Some(split_finish(st))
    } else if fuel == 0 {
        None
    } else {
        match split_step(specials, text, st) {
            Some(next) => split_run(specials, text, next, (fuel - 1) as nat),
            None => None,
        }
    }
}

/// Splitting `text` ends, without going back past the start.
pub open spec fn split_halts(specials: Set<Seq<char>>, text: Seq<char>) -> bool {
    exists|fuel: nat| #[trigger] split_run(specials, text, split_start(), fuel) is Some
}

/// Enough steps for the walk over `text` to end.
pub open spec fn split_fuel(specials: Set<Seq<char>>, text: Seq<char>) -> nat {
    choose|fuel: nat| #[trigger] split_run(specials, text, split_start(), fuel) is Some
}

/// The pieces that splitting `text` emits.
pub open spec fn split_pieces(specials: Set<Seq<char>>, text: Seq<char>) -> Seq<Piece> {
    split_run(specials, text, split_start(), split_fuel(specials, text))->0
}

/// The words of a sequence of pieces: the pattern's matches in each stretch
/// of text and each special token as it is. `None` when the pattern fails on
/// a stretch.
pub open spec fn piece_words(pattern: Seq<char>, pieces: Seq<Piece>) -> Option<Seq<Seq<char>>>
    decreases pieces.len(),
{
    if pieces.len() == 0 {
        Some(seq![])
    } else {
        match piece_words(pattern, pieces.drop_last()) {
            None => None,
            Some(front) => match pieces.last() {
                Piece::Special(s) => Some(front.push(s)),
                Piece::Text(t) => match regex_matches(pattern, t) {
                    Some(found) => Some(front + found),
                    None => None,
                },
            },
        }
    }
}

/// The words of `text`.
pub open spec fn split_words_spec(specials: Set<Seq<char>>, pattern: Seq<char>, text: Seq<char>) -> Option<Seq<Seq<char>>> {
    piece_words(pattern, split_pieces(specials, text))
}

pub(crate) proof fn lemma_utf8_len_at_least(s: Seq<char>)
    ensures
        encode_utf8(s).len() >= s.len(),
    decreases s.len(),
{
    if s.len() > 0 {
        lemma_utf8_len_at_least(s.drop_last());
        lemma_utf8_len_push(s.drop_last(), s.last());
        assert(s.drop_last().push(s.last()) == s);
    }
}

pub(crate) fn flush_exec(pieces: &mut Vec<ExecPiece>, acc: Vec<char>, special: Vec<char>)
    ensures
        final(pieces)@.map_values(|p: ExecPiece| p@) == flush(old(pieces)@.map_values(|p: ExecPiece| p@), acc@, special@),
{
    let ghost before = pieces@.map_values(|p: ExecPiece| p@);
    if acc.len() > 0 {
        let ghost a = acc@;
        pieces.push(ExecPiece::Text(acc));
        assert(pieces@.map_values(|p: ExecPiece| p@) == before.push(Piece::Text(a)));
    }
    let ghost mid = pieces@.map_values(|p: ExecPiece| p@);
    if special.len() > 0 {
        let ghost s = special@;
        pieces.push(ExecPiece::Special(special));
        assert(pieces@.map_values(|p: ExecPiece| p@) == mid.push(Piece::Special(s)));
    }
}

pub(crate) fn same_chars(a: &Vec<char>, b: &Vec<char>) -> (r: bool)
    ensures
        r == (a@ == b@),
{
    if a.len() != b.len() {
        return false;
    }
    let mut i: usize = 0;
    while i < a.len()
        invariant
            i <= a@.len(),
            a@.len() == b@.len(),
            forall|j: int| 0 <= j < i ==> a@[j] == b@[j],
        decreases a@.len() - i,
    {
        if a[i] != b[i] {
            return false;
        }
        i = i + 1;
    }
    assert(a@ == b@);
    true
}

pub(crate) fn copy_chars(v: &Vec<char>) -> (r: Vec<char>)
    ensures
        r@ == v@,
{
    let mut r: Vec<char> = Vec::new();
    for i in 0..v.len()
        invariant
            r@ == v@.take(i as int),
    {
        r.push(v[i]);
        assert(v@.take(i + 1) == v@.take(i as int).push(v@[i as int]));
    }
    assert(v@.take(v@.len() as int) == v@);
    r
}

pub fn skip_chars(v: &Vec<char>, k: usize) -> (r: Vec<char>)
    requires
        k <= v@.len(),
    ensures
        r@ == v@.skip(k as int),
{
    let mut r: Vec<char> = Vec::new();
    let mut i = k;
    while i < v.len()
        invariant
            k <= i <= v@.len(),
            r@ == v@.subrange(k as int, i as int),
        decreases v@.len() - i,
    {
        r.push(v[i]);
        assert(v@.subrange(k as int, i + 1) == v@.subrange(k as int, i as int).push(v@[i as int]));
        i = i + 1;
    }
    r
}

/// Walks `chars` through the special-token tree `root`, which holds the
/// tokens `specials`, and returns the pieces that splitting emits.
pub fn split_pieces_exec(root: &SpecialsTreeNode, chars: &Vec<char>, Ghost(specials): Ghost<Set<Seq<char>>>) -> (r: Vec<ExecPiece>)
    requires
        root.models(seq![], specials),
        split_halts(specials, chars@),
    ensures
        r@.map_values(|p: ExecPiece| p@) == split_pieces(specials, chars@),
{
    let ghost text = chars@;
    let ghost fuel0 = split_fuel(specials, text);
    let mut pieces: Vec<ExecPiece> = Vec::new();
    let mut acc: Vec<char> = Vec::new();
    let mut special: Vec<char> = Vec::new();
    let mut last_full: Option<Vec<char>> = None;
    let mut cur: &SpecialsTreeNode = root;
    let ghost mut node: Seq<char> = seq![];
    let mut i: usize = 0;
    let ghost mut fuel: nat = fuel0;
    let n = chars.len();
    proof {
        assert(pieces@.map_values(|p: ExecPiece| p@) == Seq::<Piece>::empty());
        assert(special@ == Seq::<char>::empty());
    }
    let ghost target = split_run(specials, text, split_start(), fuel0);
    while i < n
        invariant
            n == chars@.len(),
            text == chars@,
            root.models(seq![], specials),
            cur.models(node, specials),
            last_full matches Some(v) ==> v@.is_prefix_of(special@),
            target is Some,
            split_run(specials, text, SplitState {
                pos: i as int, acc: acc@, special: special@, node,
                last_full: opt_chars(last_full),
                pieces: pieces@.map_values(|p: ExecPiece| p@),
            }, fuel) == target,
        decreases fuel,
    {
        let ghost st = SplitState {
            pos: i as int, acc: acc@, special: special@, node,
            last_full: opt_chars(last_full),
            pieces: pieces@.map_values(|p: ExecPiece| p@),
        };
        assert(fuel > 0);
        assert(split_step(specials, text, st) is Some);
        let ghost next = split_step(specials, text, st)->0;
        let c = chars[i];
        match cur.find_child(c) {
            Some(k) => {
                let ghost parent = *cur;
                cur = &cur.children[k];
                special.push(c);
                proof {
                    node = node.push(c);
                    assert(parent.children@[k as int] == *cur);
                    assert(cur.models(node, specials));
                }
                i = i + 1;
            },
            None => {
                assert(!begins_special(specials, st.node.push(c)));
                if special.len() == 0 {
                    acc.push(c);
                    i = i + 1;
                } else if last_full.is_none() {
                    let b = utf8_len(&special);
                    proof {
                        lemma_utf8_len_at_least(special@);
                    }
                    let back = (b - 1) as usize;
                    let first = special[0];
                    acc.push(first);
                    i = i - back;
                    special = Vec::new();
                    cur = root;
                    proof {
                        node = seq![];
                    }
                } else {
                    let v = last_full.unwrap();
                    let extra = skip_chars(&special, v.len());
                    let b = utf8_len(&extra);
                    let back = b as usize;
                    i = i - back;
                    let taken = acc;
                    acc = Vec::new();
                    let reset = v.len() > 0;
                    flush_exec(&mut pieces, taken, v);
                    special = Vec::new();
                    last_full = None;
                    if reset {
                        cur = root;
                        proof {
                            node = seq![];
                        }
                    }
                }
            },
        }
        assert(cur.models(node, specials));
        match &cur.value {
            Some(v) => {
                if same_chars(&chars_of(v.as_str()), &special) {
                    last_full = Some(copy_chars(&special));
                }
            },
            None => {},
        }
        proof {
            let st2 = SplitState {
                pos: i as int, acc: acc@, special: special@, node,
                last_full: opt_chars(last_full),
                pieces: pieces@.map_values(|p: ExecPiece| p@),
            };
            assert(st2.pos == next.pos);
            assert(st2.acc == next.acc);
            assert(st2.special == next.special);
            assert(st2.node == next.node);
            assert(st2.last_full == next.last_full);
            assert(st2.pieces == next.pieces);
            assert(st2 == next);
            fuel = (fuel - 1) as nat;
        }
    }
    let ghost st = SplitState {
        pos: i as int, acc: acc@, special: special@, node,
        last_full: opt_chars(last_full),
        pieces: pieces@.map_values(|p: ExecPiece| p@),
    };
    if special.len() > 0 {
        match last_full {
            Some(v) => {
                let extra = skip_chars(&special, v.len());
                flush_exec(&mut pieces, acc, v);
                flush_exec(&mut pieces, extra, Vec::new());
            },
            None => {
                let mut joined = acc;
                for j in 0..special.len()
                    invariant
                        joined@ == st.acc + special@.take(j as int),
                {
                    joined.push(special[j]);
                    assert(special@.take(j + 1) == special@.take(j as int).push(special@[j as int]));
                }
                assert(special@.take(special@.len() as int) == special@);
                flush_exec(&mut pieces, joined, Vec::new());
            },
        }
    } else {
        flush_exec(&mut pieces, acc, Vec::new());
    }
    pieces
}

/// The stretches of ordinary text among the pieces, in order.
pub open spec fn text_list(ps: Seq<Piece>) -> Seq<Seq<char>>
    decreases ps.len(),
{
    if ps.len() == 0 {
        seq![]
    } else {
        match ps.last() {
            Piece::Text(t) => text_list(ps.drop_last()).push(t),
            Piece::Special(_) => text_list(ps.drop_last()),
        }
    }
}

proof fn lemma_text_list_prefix(ps: Seq<Piece>, k: int)
    requires
        0 <= k <= ps.len(),
    ensures
        text_list(ps.take(k)).len() <= text_list(ps).len(),
        forall|i: int| 0 <= i < text_list(ps.take(k)).len() ==> #[trigger] text_list(ps.take(k))[i] == text_list(ps)[i],
    decreases ps.len() - k,
{
    if k == ps.len() {
        assert(ps.take(k) == ps);
    } else {
        lemma_text_list_prefix(ps, k + 1);
        assert(ps.take(k + 1).drop_last() == ps.take(k));
        let a = text_list(ps.take(k));
        let b = text_list(ps.take(k + 1));
        assert forall|i: int| 0 <= i < a.len() implies #[trigger] a[i] == text_list(ps)[i] by {
            assert(a[i] == b[i]);
        }
    }
}

proof fn lemma_text_none(pattern: Seq<char>, ps: Seq<Piece>, i: int)
    requires
        0 <= i < text_list(ps).len(),
        regex_matches(pattern, text_list(ps)[i]) is None,
    ensures
        piece_words(pattern, ps) is None,
    decreases ps.len(),
{
    let d = ps.drop_last();
    match ps.last() {
        Piece::Text(t) => {
            if i < text_list(d).len() {
                assert(text_list(ps)[i] == text_list(d)[i]);
                lemma_text_none(pattern, d, i);
            } else {
                assert(text_list(ps)[i] == t);
            }
        },
        Piece::Special(_) => {
            lemma_text_none(pattern, d, i);
        },
    }
}

/// The words of `chars`: the pieces that splitting emits, with each stretch
/// of ordinary text split by `pattern`. `None` when the pattern fails.
pub fn split_words_exec(
    root: &SpecialsTreeNode,
    pattern: &str,
    chars: &Vec<char>,
    Ghost(specials): Ghost<Set<Seq<char>>>,
) -> (r: Option<Vec<String>>)
    requires
        root.models(seq![], specials),
        split_halts(specials, chars@),
        regex_valid(pattern@),
    ensures
        r matches Some(w) ==> split_words_spec(specials, pattern@, chars@) == Some(w@.map_values(|x: String| x@)),
        r is None ==> split_words_spec(specials, pattern@, chars@) is None,
{
    let pieces = split_pieces_exec(root, chars, Ghost(specials));
    pieces_words(pattern, &pieces)
}

/// The words of the pieces: each stretch of ordinary text split by
/// `pattern`, each special token as it is. `None` when the pattern fails.
pub fn pieces_words(pattern: &str, pieces: &Vec<ExecPiece>) -> (r: Option<Vec<String>>)
    requires
        regex_valid(pattern@),
    ensures
        r matches Some(w) ==> piece_words(pattern@, pieces@.map_values(|p: ExecPiece| p@)) == Some(w@.map_values(|x: String| x@)),
        r is None ==> piece_words(pattern@, pieces@.map_values(|p: ExecPiece| p@)) is None,
{
    let ghost ps = pieces@.map_values(|p: ExecPiece| p@);
    let mut texts: Vec<String> = Vec::new();
    let mut k: usize = 0;
    while k < pieces.len()
        invariant
            k <= pieces@.len(),
            ps == pieces@.map_values(|p: ExecPiece| p@),
            texts@.map_values(|x: String| x@) == text_list(ps.take(k as int)),
        decreases pieces@.len() - k,
    {
        assert(ps.take(k + 1).drop_last() == ps.take(k as int));
        assert(ps.take(k + 1).last() == pieces@[k as int]@);
        match &pieces[k] {
            ExecPiece::Text(t) => {
                let ghost before = texts@.map_values(|x: String| x@);
                texts.push(string_of(t.as_slice()));
                assert(texts@.map_values(|x: String| x@) == before.push(t@));
            },
            ExecPiece::Special(_) => {},
        }
        k = k + 1;
    }
    assert(ps.take(pieces@.len() as int) == ps);
    let ghost tl = text_list(ps);
    let found = match regex_find_each(pattern, &texts) {
        Some(f) => f,
        None => {
            proof {
                let i = choose|i: int| 0 <= i < texts@.len() && regex_matches(pattern@, #[trigger] texts@[i]@) is None;
                assert(texts@[i]@ == tl[i]);
                lemma_text_none(pattern@, ps, i);
            }
            return None;
        },
    };
    let mut words: Vec<String> = Vec::new();
    let mut ti: usize = 0;
    let mut k: usize = 0;
    while k < pieces.len()
        invariant
            k <= pieces@.len(),
            ps == pieces@.map_values(|p: ExecPiece| p@),
            tl == text_list(ps),
            texts@.map_values(|x: String| x@) == tl,
            found@.len() == texts@.len(),
            forall|i: int| 0 <= i < texts@.len() ==> regex_matches(pattern@, #[trigger] texts@[i]@) == Some(found@[i]@.map_values(|w: String| w@)),
            ti == text_list(ps.take(k as int)).len(),
            piece_words(pattern@, ps.take(k as int)) == Some(words@.map_values(|x: String| x@)),
        decreases pieces@.len() - k,
    {
        let ghost before = words@.map_values(|x: String| x@);
        assert(ps.take(k + 1).drop_last() == ps.take(k as int));
        assert(ps.take(k + 1).last() == pieces@[k as int]@);
        proof {
            lemma_text_list_prefix(ps, k + 1);
        }
        match &pieces[k] {
            ExecPiece::Special(sp) => {
                words.push(string_of(sp.as_slice()));
                assert(words@.map_values(|x: String| x@) == before.push(sp@));
            },
            ExecPiece::Text(t) => {
                assert(text_list(ps.take(k + 1)) == text_list(ps.take(k as int)).push(t@));
                assert(text_list(ps.take(k + 1))[ti as int] == tl[ti as int]);
                assert(texts@[ti as int]@ == t@);
                let ghost fv = found@[ti as int]@.map_values(|x: String| x@);
                assert(regex_matches(pattern@, t@) == Some(fv));
                let mut j: usize = 0;
                while j < found[ti].len()
                    invariant
                        ti < found@.len(),
                        j <= found@[ti as int]@.len(),
                        fv == found@[ti as int]@.map_values(|x: String| x@),
                        words@.map_values(|x: String| x@) == before + fv.take(j as int),
                    decreases found@[ti as int]@.len() - j,
                {
                    let ghost w0 = words@.map_values(|x: String| x@);
                    words.push(found[ti][j].clone());
                    assert(words@.map_values(|x: String| x@) == w0.push(found@[ti as int]@[j as int]@));
                    assert(fv.take(j + 1) == fv.take(j as int).push(fv[j as int]));
                    j = j + 1;
                }
                assert(fv.take(found@[ti as int]@.len() as int) == fv);
                assert(ti < found.len());
                ti = ti + 1;
            },
        }
        k = k + 1;
    }
    assert(ps.take(pieces@.len() as int) == ps);
    Some(words)
}

/// Every special token is ASCII.
pub open spec fn ascii_specials(specials: Set<Seq<char>>) -> bool {
    forall|s: Seq<char>| #[trigger] specials.contains(s) ==> is_ascii_chars(s)
}

/// The text that a piece stands for.
pub open spec fn piece_text(p: Piece) -> Seq<char> {
    match p {
        Piece::Text(t) => t,
        Piece::Special(s) => s,
    }
}

/// The text that a sequence of pieces stands for.
pub open spec fn pieces_text(ps: Seq<Piece>) -> Seq<char>
    decreases ps.len(),
{
    if ps.len() == 0 {
        seq![]
    } else {
        pieces_text(ps.drop_last()) + piece_text(ps.last())
    }
}

/// Where the pending candidate starts.
pub open spec fn cand_start(st: SplitState) -> int {
    st.pos - st.special.len()
}

/// A state the walk over `text` can reach: the candidate is the text just
/// before the position and ends the node's path, which begins a special
/// token; the recorded complete token begins the candidate, which then is
/// the node's path; and the pieces and gathered text spell the text up to
/// the candidate.
pub open spec fn walk_ok(specials: Set<Seq<char>>, text: Seq<char>, st: SplitState) -> bool {
    let start = cand_start(st);
    &&& 0 <= start
    &&& st.pos <= text.len()
    &&& st.special == text.subrange(start, st.pos)
    &&& st.special.len() <= st.node.len()
    &&& st.node.skip(st.node.len() - st.special.len()) == st.special
    &&& (st.node.len() > 0 ==> begins_special(specials, st.node))
    &&& (st.last_full matches Some(v) ==> v.is_prefix_of(st.special) && specials.contains(v) && st.node == st.special)
    &&& pieces_text(st.pieces) + st.acc + text.skip(start) == text
}

proof fn lemma_flush_text(ps: Seq<Piece>, acc: Seq<char>, special: Seq<char>)
    ensures
        pieces_text(flush(ps, acc, special)) == pieces_text(ps) + acc + special,
{
    let p = if acc.len() > 0 { ps.push(Piece::Text(acc)) } else { ps };
    if acc.len() > 0 {
        assert(p.drop_last() == ps);
    } else {
        assert(acc == Seq::<char>::empty());
        assert(pieces_text(ps) + acc == pieces_text(ps));
    }
    assert(pieces_text(p) == pieces_text(ps) + acc);
    if special.len() > 0 {
        assert(p.push(Piece::Special(special)).drop_last() == p);
    } else {
        assert(special == Seq::<char>::empty());
        assert(pieces_text(p) + special == pieces_text(p));
    }
}

proof fn lemma_candidate_ascii(specials: Set<Seq<char>>, p: Seq<char>)
    requires
        ascii_specials(specials),
        begins_special(specials, p),
    ensures
        is_ascii_chars(p),
        byte_len(p) == p.len(),
{
    let s = choose|s: Seq<char>| #[trigger] specials.contains(s) && p.is_prefix_of(s);
    assert(is_ascii_chars(s));
    assert forall|i: int| 0 <= i < p.len() implies '\0' <= #[trigger] p[i] <= '\u{7f}' by {
        assert(p[i] == s[i]);
    }
    is_ascii_chars_encode_utf8(p);
}

/// In a reachable state the candidate is ASCII when special tokens are.
proof fn lemma_special_ascii(specials: Set<Seq<char>>, text: Seq<char>, st: SplitState)
    requires
        ascii_specials(specials),
        walk_ok(specials, text, st),
        st.special.len() > 0,
    ensures
        is_ascii_chars(st.special),
        byte_len(st.special) == st.special.len(),
{
    lemma_candidate_ascii(specials, st.node);
    lemma_ascii_skip(st.node, st.node.len() - st.special.len());
}

proof fn lemma_ascii_skip(p: Seq<char>, k: int)
    requires
        is_ascii_chars(p),
        0 <= k <= p.len(),
    ensures
        is_ascii_chars(p.skip(k)),
        byte_len(p.skip(k)) == p.len() - k,
{
    assert forall|i: int| 0 <= i < p.skip(k).len() implies '\0' <= #[trigger] p.skip(k)[i] <= '\u{7f}' by {
        assert(p.skip(k)[i] == p[i + k]);
    }
    is_ascii_chars_encode_utf8(p.skip(k));
}

proof fn lemma_note_full(specials: Set<Seq<char>>, text: Seq<char>, st: SplitState)
    requires
        walk_ok(specials, text, st),
    ensures
        walk_ok(specials, text, note_full(specials, st)),
        note_full(specials, st).pos == st.pos,
        note_full(specials, st).special == st.special,
        note_full(specials, st).node == st.node,
{
    if specials.contains(st.node) && st.special == st.node {
        assert(st.special.is_prefix_of(st.special));
    }
}

/// A step from `st` to `nx` keeps the walk in a reachable state, never
/// moves the candidate's start back, and, when it keeps the start, either
/// moves one character on with the node still following the candidate as
/// before, or emits an empty special token after which the node no longer
/// follows the candidate.
pub open spec fn step_ok(specials: Set<Seq<char>>, text: Seq<char>, st: SplitState, nx: SplitState) -> bool {
    &&& walk_ok(specials, text, nx)
    &&& cand_start(nx) >= cand_start(st)
    &&& cand_start(nx) == cand_start(st) ==> (
        (nx.pos == st.pos + 1 && (nx.node == nx.special) == (st.node == st.special))
        || (st.last_full == Some(Seq::<char>::empty()) && st.node == st.special && nx.node != nx.special))
}

proof fn lemma_step_grow(specials: Set<Seq<char>>, text: Seq<char>, st: SplitState)
    requires
        walk_ok(specials, text, st),
        0 <= st.pos < text.len(),
        begins_special(specials, st.node.push(text[st.pos])),
    ensures
        step_ok(specials, text, st, note_full(specials, SplitState {
            pos: st.pos + 1, acc: st.acc, special: st.special.push(text[st.pos]), node: st.node.push(text[st.pos]),
            last_full: st.last_full, pieces: st.pieces,
        })),
{
    let c = text[st.pos];
    let start = cand_start(st);
    let nx = SplitState {
        pos: st.pos + 1, acc: st.acc, special: st.special.push(c), node: st.node.push(c), last_full: st.last_full,
        pieces: st.pieces,
    };
    assert(nx.special == text.subrange(start, st.pos + 1));
    assert(nx.node.skip(nx.node.len() - nx.special.len()) == nx.special) by {
        let k = st.node.len() - st.special.len();
        assert forall|i: int| 0 <= i < nx.special.len() implies nx.node.skip(k)[i] == nx.special[i] by {
            if i < st.special.len() {
                assert(st.node.skip(k)[i] == st.special[i]);
            }
        }
    }
    if st.node != st.special {
        assert(st.node.len() > st.special.len()) by {
            if st.node.len() == st.special.len() {
                assert(st.node.skip(0) == st.node);
            }
        }
        assert(nx.node.len() != nx.special.len());
    }
    if let Some(v) = st.last_full {
        assert(v.is_prefix_of(nx.special)) by {
            assert forall|i: int| 0 <= i < v.len() implies v[i] == nx.special[i] by {
                assert(v[i] == st.special[i]);
            }
        }
    }
    lemma_note_full(specials, text, nx);
}

proof fn lemma_step_plain(specials: Set<Seq<char>>, text: Seq<char>, st: SplitState)
    requires
        walk_ok(specials, text, st),
        0 <= st.pos < text.len(),
        st.special.len() == 0,
    ensures
        step_ok(specials, text, st, note_full(specials, SplitState {
            pos: st.pos + 1, acc: st.acc.push(text[st.pos]), special: st.special, node: st.node, last_full: st.last_full,
            pieces: st.pieces,
        })),
{
    let c = text[st.pos];
    let start = cand_start(st);
    let ps = pieces_text(st.pieces);
    let nx = SplitState {
        pos: st.pos + 1, acc: st.acc.push(c), special: st.special, node: st.node, last_full: st.last_full,
        pieces: st.pieces,
    };
    assert(text.skip(start) == seq![c] + text.skip(start + 1));
    assert(ps + st.acc.push(c) + text.skip(start + 1) == ps + st.acc + text.skip(start));
    assert(nx.special == text.subrange(st.pos + 1, st.pos + 1));
    assert(nx.node.skip(nx.node.len() - nx.special.len()) == nx.special);
    if let Some(v) = st.last_full {
        assert(v.len() == 0);
    }
    lemma_note_full(specials, text, nx);
}

proof fn lemma_step_drop(specials: Set<Seq<char>>, text: Seq<char>, st: SplitState)
    requires
        ascii_specials(specials),
        walk_ok(specials, text, st),
        0 <= st.pos < text.len(),
        st.special.len() > 0,
        st.last_full is None,
    ensures
        st.pos >= byte_len(st.special) - 1,
        step_ok(specials, text, st, note_full(specials, SplitState {
            pos: st.pos - (byte_len(st.special) - 1), acc: st.acc.push(st.special[0]), special: seq![], node: seq![],
            last_full: None, pieces: st.pieces,
        })),
{
    let start = cand_start(st);
    let ps = pieces_text(st.pieces);
    lemma_special_ascii(specials, text, st);
    let back = byte_len(st.special) - 1;
    let nx = SplitState {
        pos: st.pos - back, acc: st.acc.push(st.special[0]), special: seq![], node: seq![], last_full: None,
        pieces: st.pieces,
    };
    assert(st.special[0] == text[start]);
    assert(text.skip(start) == seq![text[start]] + text.skip(start + 1));
    assert(ps + st.acc.push(st.special[0]) + text.skip(start + 1) == ps + st.acc + text.skip(start));
    assert(nx.special == text.subrange(nx.pos, nx.pos));
    assert(nx.node.skip(0) == nx.special);
    lemma_note_full(specials, text, nx);
}

proof fn lemma_step_emit(specials: Set<Seq<char>>, text: Seq<char>, st: SplitState)
    requires
        ascii_specials(specials),
        walk_ok(specials, text, st),
        0 <= st.pos < text.len(),
        st.special.len() > 0,
        st.last_full is Some,
    ensures
        st.pos >= byte_len(st.special.skip(st.last_full->0.len() as int)),
        step_ok(specials, text, st, note_full(specials, SplitState {
            pos: st.pos - byte_len(st.special.skip(st.last_full->0.len() as int)), acc: seq![], special: seq![],
            node: if st.last_full->0.len() > 0 { seq![] } else { st.node },
            last_full: None, pieces: flush(st.pieces, st.acc, st.last_full->0),
        })),
{
    let start = cand_start(st);
    let ps = pieces_text(st.pieces);
    let v = st.last_full->0;
    lemma_special_ascii(specials, text, st);
    lemma_ascii_skip(st.special, v.len() as int);
    let back = byte_len(st.special.skip(v.len() as int));
    let nx = SplitState {
        pos: st.pos - back, acc: seq![], special: seq![], node: if v.len() > 0 { seq![] } else { st.node },
        last_full: None, pieces: flush(st.pieces, st.acc, v),
    };
    lemma_flush_text(st.pieces, st.acc, v);
    assert(nx.pos == start + v.len());
    assert(v == text.subrange(start, start + v.len())) by {
        assert forall|i: int| 0 <= i < v.len() implies v[i] == text.subrange(start, start + v.len())[i] by {
            assert(v[i] == st.special[i]);
        }
    }
    assert(text.skip(start) == v + text.skip(start + v.len()));
    assert(ps + st.acc + v + seq![] + text.skip(start + v.len()) == ps + st.acc + text.skip(start));
    assert(nx.special == text.subrange(nx.pos, nx.pos));
    assert(nx.node.skip(nx.node.len() - 0) == nx.special);
    lemma_note_full(specials, text, nx);
    if v.len() == 0 {
        assert(v == Seq::<char>::empty());
        assert(nx.node.len() > 0);
        assert(nx.node != nx.special);
    }
}

/// One step keeps the walk in a reachable state when special tokens are
/// ASCII.
proof fn lemma_step_ok(specials: Set<Seq<char>>, text: Seq<char>, st: SplitState)
    requires
        ascii_specials(specials),
        walk_ok(specials, text, st),
        0 <= st.pos < text.len(),
    ensures
        split_step(specials, text, st) is Some,
        step_ok(specials, text, st, split_step(specials, text, st)->0),
{
    let c = text[st.pos];
    if begins_special(specials, st.node.push(c)) {
        lemma_step_grow(specials, text, st);
    } else if st.special.len() == 0 {
        lemma_step_plain(specials, text, st);
    } else if st.last_full is None {
        lemma_step_drop(specials, text, st);
    } else {
        lemma_step_emit(specials, text, st);
    }
}

/// The finishing pieces spell the text of a reachable state at the end.
proof fn lemma_finish_text(specials: Set<Seq<char>>, text: Seq<char>, st: SplitState)
    requires
        walk_ok(specials, text, st),
        st.pos >= text.len(),
    ensures
        pieces_text(split_finish(st)) == text,
{
    let start = cand_start(st);
    let ps = pieces_text(st.pieces);
    assert(st.pos == text.len());
    assert(text.skip(start) == st.special);
    if st.special.len() > 0 {
        match st.last_full {
            Some(v) => {
                lemma_flush_text(st.pieces, st.acc, v);
                lemma_flush_text(flush(st.pieces, st.acc, v), st.special.skip(v.len() as int), seq![]);
                assert(v + st.special.skip(v.len() as int) == st.special) by {
                    assert(v == st.special.take(v.len() as int));
                }
                assert(ps + st.acc + v + st.special.skip(v.len() as int) + seq![] == ps + st.acc + st.special);
            },
            None => {
                lemma_flush_text(st.pieces, st.acc + st.special, seq![]);
                assert(ps + (st.acc + st.special) + seq![] == ps + st.acc + st.special);
            },
        }
    } else {
        lemma_flush_text(st.pieces, st.acc, seq![]);
        assert(st.special == Seq::<char>::empty());
        assert(ps + st.acc + seq![] == ps + st.acc + st.special);
    }
}

proof fn lemma_run_text(specials: Set<Seq<char>>, text: Seq<char>, st: SplitState, fuel: nat)
    requires
        ascii_specials(specials),
        walk_ok(specials, text, st),
        split_run(specials, text, st, fuel) is Some,
    ensures
        pieces_text(split_run(specials, text, st, fuel)->0) == text,
    decreases fuel,
{
    if st.pos >= text.len() {
        lemma_finish_text(specials, text, st);
    } else {
        lemma_step_ok(specials, text, st);
        lemma_run_text(specials, text, split_step(specials, text, st)->0, (fuel - 1) as nat);
    }
}

proof fn lemma_start_ok(specials: Set<Seq<char>>, text: Seq<char>)
    ensures
        walk_ok(specials, text, split_start()),
{
    assert(text.subrange(0, 0) == Seq::<char>::empty());
    assert(Seq::<char>::empty().skip(0) == Seq::<char>::empty());
    assert(pieces_text(Seq::<Piece>::empty()) + Seq::<char>::empty() + text.skip(0) == text);
}

/// When every special token is ASCII, the pieces that splitting emits spell
/// the text again: nothing is lost, repeated or reordered.
pub proof fn lemma_split_keeps_text(specials: Set<Seq<char>>, text: Seq<char>)
    requires
        ascii_specials(specials),
        split_halts(specials, text),
    ensures
        pieces_text(split_pieces(specials, text)) == text,
{
    lemma_start_ok(specials, text);
    lemma_run_text(specials, text, split_start(), split_fuel(specials, text));
}

/// Whether the node is the candidate's own path: 1 when it is, else 0.
pub open spec fn walk_phase(st: SplitState) -> int {
    if st.node == st.special { 1 } else { 0 }
}

/// The size that every step of the walk makes smaller.
pub open spec fn walk_measure(text: Seq<char>, st: SplitState) -> int {
    (text.len() - cand_start(st)) * (2 * text.len() + 2) + walk_phase(st) * (text.len() + 1) + (text.len() - st.pos)
}

proof fn lemma_measure_drops(a: int, a2: int, n: int, p: int, p2: int, x: int, x2: int)
    by (nonlinear_arith)
    requires
        0 <= a2 < a,
        0 <= p <= 1,
        0 <= p2 <= 1,
        0 <= x2 <= n,
        0 <= x,
        n >= 0,
    ensures
        a2 * (2 * n + 2) + p2 * (n + 1) + x2 < a * (2 * n + 2) + p * (n + 1) + x,
{
}

proof fn lemma_measure_nonneg(a: int, n: int, p: int, x: int)
    by (nonlinear_arith)
    requires
        0 <= a,
        0 <= p,
        0 <= x,
        n >= 0,
    ensures
        0 <= a * (2 * n + 2) + p * (n + 1) + x,
{
}

proof fn lemma_run_halts(specials: Set<Seq<char>>, text: Seq<char>, st: SplitState, fuel: nat)
    requires
        ascii_specials(specials),
        walk_ok(specials, text, st),
        fuel > walk_measure(text, st),
    ensures
        split_run(specials, text, st, fuel) is Some,
    decreases walk_measure(text, st),
{
    let n = text.len() as int;
    lemma_measure_nonneg(n - cand_start(st), n, walk_phase(st), n - st.pos);
    if st.pos < text.len() {
        lemma_step_ok(specials, text, st);
        let nx = split_step(specials, text, st)->0;
        if cand_start(nx) != cand_start(st) {
            lemma_measure_drops(
                n - cand_start(st),
                n - cand_start(nx),
                n,
                walk_phase(st),
                walk_phase(nx),
                n - st.pos,
                n - nx.pos,
            );
        }
        lemma_measure_nonneg(n - cand_start(nx), n, walk_phase(nx), n - nx.pos);
        lemma_run_halts(specials, text, nx, (fuel - 1) as nat);
    }
}

/// When every special token is ASCII, splitting any text ends.
pub proof fn lemma_ascii_specials_halt(specials: Set<Seq<char>>, text: Seq<char>)
    requires
        ascii_specials(specials),
    ensures
        split_halts(specials, text),
{
    lemma_start_ok(specials, text);
    let st = split_start();
    let n = text.len() as int;
    lemma_measure_nonneg(n - cand_start(st), n, walk_phase(st), n - st.pos);
    let fuel = (walk_measure(text, st) + 1) as nat;
    lemma_run_halts(specials, text, st, fuel);
    assert(split_run(specials, text, split_start(), fuel) is Some);
}

/// A walk over a text in which no special token occurs never records a
/// complete special token nor emits a piece before the end, and at the end
/// emits the whole text as one stretch of ordinary text.
proof fn lemma_run_one_piece(specials: Set<Seq<char>>, text: Seq<char>, st: SplitState, fuel: nat)
    requires
        ascii_specials(specials),
        forall|s: Seq<char>| #[trigger] specials.contains(s) ==> !occurs_in(s, text),
        text.len() > 0,
        walk_ok(specials, text, st),
        st.pieces == Seq::<Piece>::empty(),
        st.last_full is None,
        split_run(specials, text, st, fuel) is Some,
    ensures
        split_run(specials, text, st, fuel) == Some(seq![Piece::Text(text)]),
    decreases fuel,
{
    let start = cand_start(st);
    if st.pos >= text.len() {
        assert(pieces_text(Seq::<Piece>::empty()) == Seq::<char>::empty());
        assert(Seq::<char>::empty() + st.acc + text.skip(start) == st.acc + text.skip(start));
        assert(text.skip(start) == st.special);
        if st.special.len() > 0 {
            assert(st.acc + st.special == text);
        } else {
            assert(st.acc + Seq::<char>::empty() == st.acc);
            assert(st.acc == text);
        }
    } else {
        lemma_step_ok(specials, text, st);
        let nx = split_step(specials, text, st)->0;
        if let Some(v) = nx.last_full {
            assert(nx.special == text.subrange(cand_start(nx), nx.pos));
            assert(text.subrange(cand_start(nx), cand_start(nx) + nx.special.len()) == nx.special);
            assert(occurs_in(nx.special, text));
            assert(specials.contains(nx.special));
            assert(false);
        }
        lemma_run_one_piece(specials, text, nx, (fuel - 1) as nat);
    }
}

/// When special tokens are ASCII and none occurs in a non-empty text,
/// splitting ends and emits the whole text as one stretch of ordinary text,
/// whichever of its characters begin a special token; its words are then
/// the pattern's matches in the whole text.
pub proof fn lemma_no_special_one_piece(specials: Set<Seq<char>>, pattern: Seq<char>, text: Seq<char>)
    requires
        ascii_specials(specials),
        forall|s: Seq<char>| #[trigger] specials.contains(s) ==> !occurs_in(s, text),
        text.len() > 0,
    ensures
        split_halts(specials, text),
        split_pieces(specials, text) == seq![Piece::Text(text)],
        split_words_spec(specials, pattern, text) == regex_matches(pattern, text),
{
    lemma_ascii_specials_halt(specials, text);
    lemma_start_ok(specials, text);
    lemma_run_one_piece(specials, text, split_start(), split_fuel(specials, text));
    let ps = seq![Piece::Text(text)];
    assert(ps.drop_last() == Seq::<Piece>::empty());
    assert(ps.last() == Piece::Text(text));
    assert(piece_words(pattern, Seq::<Piece>::empty()) == Some(Seq::<Seq<char>>::empty()));
    match regex_matches(pattern, text) {
        Some(f) => {
            assert(Seq::<Seq<char>>::empty() + f == f);
        },
        None => {},
    }
}

} // verus!

//! Byte-pair merging: the adjacent pair of symbols with the best merge rank
//! is joined, everywhere it occurs from left to right, until no adjacent
//! pair has a rank.
use vstd::prelude::*;
use vstd::string::StringExecFns;
use ahash::AHashMap;
use vstd::utf8::encode_utf8;
use crate::collections::{rank_table, rank_table_get, entries, lookup, ordered_get, OrderedIds};
use crate::text::{decimal, decimal_chars, string_of};

verus! {

/// The symbols of a word, each as characters.
pub open spec fn symbols(w: Seq<String>) -> Seq<Seq<char>> {
    w.map_values(|s: String| s@)
}

/// The rank of merging `a` with `b`: the merge table's rank of the joined
/// string, or `usize::MAX` when the table has none.
pub open spec fn pair_rank(ranks: Map<Seq<char>, usize>, a: Seq<char>, b: Seq<char>) -> u64 {
    if ranks.contains_key(a + b) {
        ranks[a + b] as u64
    } else {
        usize::MAX as u64
    }
}

/// A pair of adjacent symbols with its rank.
pub struct RankedPair {
    pub rank: u64,
    pub left: Seq<char>,
    pub right: Seq<char>,
}

/// The pair formed by symbols `j` and `j + 1`.
pub open spec fn pair_at(ranks: Map<Seq<char>, usize>, w: Seq<Seq<char>>, j: int) -> RankedPair {
    RankedPair { rank: pair_rank(ranks, w[j], w[j + 1]), left: w[j], right: w[j + 1] }
}

/// Ranks strictly increase along the list.
pub open spec fn strictly_ranked(d: Seq<RankedPair>) -> bool {
    forall|i: int, j: int| 0 <= i < j < d.len() ==> #[trigger] d[i].rank < #[trigger] d[j].rank
}

/// `x` is one of the first `m` adjacent pairs, the leftmost of its rank.
pub open spec fn leftmost_of_rank(ranks: Map<Seq<char>, usize>, w: Seq<Seq<char>>, m: int, x: RankedPair) -> bool {
    exists|j: int|
        0 <= j < m && x == #[trigger] pair_at(ranks, w, j) && forall|j2: int|
            0 <= j2 < j ==> (#[trigger] pair_at(ranks, w, j2)).rank != x.rank
}

/// `d` lists, by increasing rank, one pair for each rank among the first `m`
/// adjacent pairs of `w`: the leftmost pair of that rank.
pub open spec fn ranked_pairs_of(ranks: Map<Seq<char>, usize>, w: Seq<Seq<char>>, m: int, d: Seq<RankedPair>) -> bool {
    &&& strictly_ranked(d)
    &&& forall|k: int| 0 <= k < d.len() ==> #[trigger] leftmost_of_rank(ranks, w, m, d[k])
    &&& forall|j: int| 0 <= j < m ==> exists|k: int| 0 <= k < d.len() && #[trigger] d[k].rank == (#[trigger] pair_at(ranks, w, j)).rank
}

/// The position of the leftmost pair of least rank among the first `m`
/// adjacent pairs.
pub open spec fn best_index(ranks: Map<Seq<char>, usize>, w: Seq<Seq<char>>, m: int) -> int
    decreases m,
{
    if m <= 1 {
        0
    } else {
        let b = best_index(ranks, w, m - 1);
        if pair_at(ranks, w, m - 1).rank < pair_at(ranks, w, b).rank {
            m - 1
        } else {
            b
        }
    }
}

/// `w` with every occurrence of `first` directly followed by `second`,
/// taken from left to right without overlap, joined into one symbol.
pub open spec fn merge_pair(w: Seq<Seq<char>>, first: Seq<char>, second: Seq<char>) -> Seq<Seq<char>>
    decreases w.len(),
{
    if w.len() == 0 {
        seq![]
    } else if w.len() >= 2 && w[0] == first && w[1] == second {
        seq![first + second] + merge_pair(w.skip(2), first, second)
    } else {
        seq![w[0]] + merge_pair(w.skip(1), first, second)
    }
}

pub proof fn lemma_best_index(ranks: Map<Seq<char>, usize>, w: Seq<Seq<char>>, m: int)
    requires
        m >= 1,
    ensures
        0 <= best_index(ranks, w, m) < m,
        forall|j: int| 0 <= j < m ==> pair_at(ranks, w, best_index(ranks, w, m)).rank <= (#[trigger] pair_at(ranks, w, j)).rank,
        forall|j: int| 0 <= j < best_index(ranks, w, m) ==> pair_at(ranks, w, best_index(ranks, w, m)).rank < (#[trigger] pair_at(ranks, w, j)).rank,
    decreases m,
{
    if m > 1 {
        lemma_best_index(ranks, w, m - 1);
    }
}

pub proof fn lemma_merge_shrinks(w: Seq<Seq<char>>, first: Seq<char>, second: Seq<char>, b: int)
    requires
        0 <= b < w.len() - 1,
        w[b] == first,
        w[b + 1] == second,
    ensures
        merge_pair(w, first, second).len() < w.len(),
    decreases w.len(),
{
    if w.len() >= 2 && w[0] == first && w[1] == second {
        lemma_merge_no_longer(w.skip(2), first, second);
    } else {
        assert(b >= 1);
        assert(w.skip(1)[b - 1] == w[b]);
        assert(w.skip(1)[b] == w[b + 1]);
        lemma_merge_shrinks(w.skip(1), first, second, b - 1);
    }
}

pub proof fn lemma_merge_no_longer(w: Seq<Seq<char>>, first: Seq<char>, second: Seq<char>)
    ensures
        merge_pair(w, first, second).len() <= w.len(),
    decreases w.len(),
{
    if w.len() >= 2 && w[0] == first && w[1] == second {
        lemma_merge_no_longer(w.skip(2), first, second);
    } else if w.len() > 0 {
        lemma_merge_no_longer(w.skip(1), first, second);
    }
}

/// The symbols after byte-pair merging: while the word has two or more
/// symbols and its leftmost least-ranked adjacent pair has a rank in the
/// table, that pair is merged everywhere.
pub open spec fn bpe_merge(ranks: Map<Seq<char>, usize>, w: Seq<Seq<char>>) -> Seq<Seq<char>>
    decreases w.len(),
{
    if w.len() <= 1 {
        w
    } else {
        let b = best_index(ranks, w, w.len() - 1);
        if !ranks.contains_key(w[b] + w[b + 1]) {
            w
        } else {
            proof {
                lemma_best_index(ranks, w, w.len() - 1);
                lemma_merge_shrinks(w, w[b], w[b + 1], b);
            }
            bpe_merge(ranks, merge_pair(w, w[b], w[b + 1]))
        }
    }
}

/// Two adjacent symbols.
pub struct GPTPair {
    pub left: String,
    pub right: String,
}

/// Two adjacent symbols with the rank of merging them.
pub struct BGERank {
    pub rank: u64,
    pub bigram: GPTPair,
}

impl View for BGERank {
    type V = RankedPair;

    open spec fn view(&self) -> RankedPair {
        RankedPair { rank: self.rank, left: self.bigram.left@, right: self.bigram.right@ }
    }
}

/// The ranked pairs, each by its view.
pub open spec fn ranked_view(d: Seq<BGERank>) -> Seq<RankedPair> {
    d.map_values(|r: BGERank| r@)
}

/// Inserts `item` at its place by rank, after every pair of smaller rank,
/// unless a pair of the same rank is already listed.
pub fn insert_sorted_no_dups(data: &mut Vec<BGERank>, item: BGERank)
    requires
        strictly_ranked(ranked_view(old(data)@)),
    ensures
        strictly_ranked(ranked_view(final(data)@)),
        (exists|k: int| 0 <= k < old(data)@.len() && #[trigger] ranked_view(old(data)@)[k].rank == item.rank) ==> ranked_view(final(data)@)
            == ranked_view(old(data)@),
        !(exists|k: int| 0 <= k < old(data)@.len() && #[trigger] ranked_view(old(data)@)[k].rank == item.rank) ==> exists|p: int|
            0 <= p <= old(data)@.len()
                && (forall|k: int| 0 <= k < p ==> (#[trigger] ranked_view(old(data)@)[k]).rank < item.rank)
                && (forall|k: int| p <= k < old(data)@.len() ==> (#[trigger] ranked_view(old(data)@)[k]).rank > item.rank)
                && ranked_view(final(data)@) == ranked_view(old(data)@).insert(p, item@),
{
    let ghost d0 = ranked_view(data@);
    let mut i: usize = 0;
    while i < data.len() && data[i].rank < item.rank
        invariant
            i <= data@.len(),
            data@ == old(data)@,
            d0 == ranked_view(data@),
            forall|k: int| 0 <= k < i ==> #[trigger] data@[k].rank < item.rank,
        decreases data@.len() - i,
    {
        i = i + 1;
    }
    if i < data.len() && data[i].rank == item.rank {
        assert(d0[i as int].rank == item.rank);
        return;
    }
    proof {
        assert forall|k: int| 0 <= k < data@.len() implies #[trigger] d0[k].rank != item.rank by {
            if k >= i {
                assert(d0[i as int].rank <= d0[k].rank);
            }
        }
        assert forall|k: int| 0 <= k < i implies (#[trigger] d0[k]).rank < item.rank by {
            assert(data@[k].rank < item.rank);
        }
        assert forall|k: int| i <= k < d0.len() implies (#[trigger] d0[k]).rank > item.rank by {
            assert(d0[i as int].rank <= d0[k].rank);
            assert(d0[k].rank != item.rank);
        }
    }
    let ghost it = item@;
    data.insert(i, item);
    proof {
        let d1 = ranked_view(data@);
        assert(d1 == d0.insert(i as int, it));
        assert forall|a: int, b: int| 0 <= a < b < d1.len() implies #[trigger] d1[a].rank < #[trigger] d1[b].rank by {
            if a < i && b > i {
                assert(d1[b] == d0[b - 1]);
                assert(d0[a].rank < d0[b - 1].rank || a == b - 1);
            }
            if a == i && b > i {
                assert(d1[b] == d0[b - 1]);
                assert(d0[b - 1].rank >= item.rank);
            }
            if b == i {
                assert(d1[a] == d0[a]);
            }
            if a > i {
                assert(d1[a] == d0[a - 1]);
                assert(d1[b] == d0[b - 1]);
            }
        }
    }
}

/// The two strings joined.
pub fn join2(a: &String, b: &String) -> (r: String)
    ensures
        r@ == a@ + b@,
{
    let mut r = a.clone();
    r.append(b.as_str());
    r
}

/// The adjacent pairs of `word`, ranked, one for each rank: the leftmost of
/// that rank.
pub fn get_ranked_pairs(ranks: &AHashMap<String, usize>, word: &Vec<String>) -> (r: Vec<BGERank>)
    requires
        word@.len() >= 1,
    ensures
        ranked_pairs_of(rank_table(*ranks), symbols(word@), word@.len() - 1, ranked_view(r@)),
{
    let ghost rk = rank_table(*ranks);
    let ghost w = symbols(word@);
    let mut ranked: Vec<BGERank> = Vec::new();
    let n = word.len();
    let mut j: usize = 0;
    while j + 1 < n
        invariant
            n == word@.len(),
            n >= 1,
            j + 1 <= n,
            rk == rank_table(*ranks),
            w == symbols(word@),
            ranked_pairs_of(rk, w, j as int, ranked_view(ranked@)),
        decreases n - j,
    {
        let pair = join2(&word[j], &word[j + 1]);
        let rank: u64 = match rank_table_get(ranks, pair.as_str()) {
            Some(r) => r as u64,
            None => usize::MAX as u64,
        };
        let item = BGERank { rank, bigram: GPTPair { left: word[j].clone(), right: word[j + 1].clone() } };
        let ghost it = item@;
        assert(it == pair_at(rk, w, j as int));
        let ghost d0 = ranked_view(ranked@);
        insert_sorted_no_dups(&mut ranked, item);
        proof {
            lemma_ranked_step(rk, w, j as int, d0, ranked_view(ranked@), it);
        }
        j = j + 1;
    }
    ranked
}

proof fn lemma_ranked_step(rk: Map<Seq<char>, usize>, w: Seq<Seq<char>>, j: int, d0: Seq<RankedPair>, d1: Seq<RankedPair>, it: RankedPair)
    requires
        0 <= j,
        j + 1 < w.len(),
        it == pair_at(rk, w, j),
        ranked_pairs_of(rk, w, j, d0),
        strictly_ranked(d1),
        (exists|k: int| 0 <= k < d0.len() && #[trigger] d0[k].rank == it.rank) ==> d1 == d0,
        !(exists|k: int| 0 <= k < d0.len() && #[trigger] d0[k].rank == it.rank) ==> exists|p: int|
            0 <= p <= d0.len() && d1 == d0.insert(p, it),
    ensures
        ranked_pairs_of(rk, w, j + 1, d1),
{
    if exists|k: int| 0 <= k < d0.len() && #[trigger] d0[k].rank == it.rank {
        lemma_ranked_step_kept(rk, w, j, d0, it);
    } else {
        let p = choose|p: int| 0 <= p <= d0.len() && d1 == d0.insert(p, it);
        lemma_ranked_step_covers(rk, w, j, d0, it, p);
        lemma_ranked_step_leftmost(rk, w, j, d0, it, p);
    }
}

proof fn lemma_ranked_step_kept(rk: Map<Seq<char>, usize>, w: Seq<Seq<char>>, j: int, d0: Seq<RankedPair>, it: RankedPair)
    requires
        0 <= j,
        it == pair_at(rk, w, j),
        ranked_pairs_of(rk, w, j, d0),
        exists|k: int| 0 <= k < d0.len() && #[trigger] d0[k].rank == it.rank,
    ensures
        ranked_pairs_of(rk, w, j + 1, d0),
{
    assert forall|k: int| 0 <= k < d0.len() implies #[trigger] leftmost_of_rank(rk, w, j + 1, d0[k]) by {
        lemma_leftmost_grows(rk, w, j, d0[k]);
    }
}

proof fn lemma_leftmost_grows(rk: Map<Seq<char>, usize>, w: Seq<Seq<char>>, m: int, x: RankedPair)
    requires
        leftmost_of_rank(rk, w, m, x),
    ensures
        leftmost_of_rank(rk, w, m + 1, x),
{
    let jj = choose|jj: int|
        0 <= jj < m && x == #[trigger] pair_at(rk, w, jj) && forall|j2: int|
            0 <= j2 < jj ==> (#[trigger] pair_at(rk, w, j2)).rank != x.rank;
    assert(0 <= jj < m + 1 && x == pair_at(rk, w, jj));
}

proof fn lemma_ranked_step_covers(rk: Map<Seq<char>, usize>, w: Seq<Seq<char>>, j: int, d0: Seq<RankedPair>, it: RankedPair, p: int)
    requires
        0 <= j,
        0 <= p <= d0.len(),
        it == pair_at(rk, w, j),
        ranked_pairs_of(rk, w, j, d0),
    ensures
        forall|jj: int| 0 <= jj < j + 1 ==> exists|k: int| 0 <= k < d0.insert(p, it).len() && #[trigger] d0.insert(p, it)[k].rank == (#[trigger] pair_at(rk, w, jj)).rank,
{
    let d1 = d0.insert(p, it);
    assert forall|jj: int| 0 <= jj < j + 1 implies exists|k: int| 0 <= k < d1.len() && #[trigger] d1[k].rank == (#[trigger] pair_at(rk, w, jj)).rank by {
        if jj < j {
            let k0 = choose|k: int| 0 <= k < d0.len() && #[trigger] d0[k].rank == (#[trigger] pair_at(rk, w, jj)).rank;
            if k0 < p {
                assert(d1[k0] == d0[k0]);
                assert(d1[k0].rank == pair_at(rk, w, jj).rank);
            } else {
                assert(d1[k0 + 1] == d0[k0]);
                assert(d1[k0 + 1].rank == pair_at(rk, w, jj).rank);
            }
        } else {
            assert(d1[p] == it);
            assert(d1[p].rank == pair_at(rk, w, jj).rank);
        }
    }
}

proof fn lemma_ranked_step_leftmost(rk: Map<Seq<char>, usize>, w: Seq<Seq<char>>, j: int, d0: Seq<RankedPair>, it: RankedPair, p: int)
    requires
        0 <= j,
        0 <= p <= d0.len(),
        it == pair_at(rk, w, j),
        ranked_pairs_of(rk, w, j, d0),
        !(exists|k: int| 0 <= k < d0.len() && #[trigger] d0[k].rank == it.rank),
    ensures
        forall|k: int| 0 <= k < d0.insert(p, it).len() ==> #[trigger] leftmost_of_rank(rk, w, j + 1, d0.insert(p, it)[k]),
{
    let d1 = d0.insert(p, it);
    assert forall|k: int| 0 <= k < d1.len() implies #[trigger] leftmost_of_rank(rk, w, j + 1, d1[k]) by {
        if k < p {
            assert(d1[k] == d0[k]);
            lemma_leftmost_grows(rk, w, j, d0[k]);
        } else if k == p {
            assert(d1[k] == it);
            assert forall|j2: int| 0 <= j2 < j implies (#[trigger] pair_at(rk, w, j2)).rank != it.rank by {
                let k0 = choose|k: int| 0 <= k < d0.len() && #[trigger] d0[k].rank == (#[trigger] pair_at(rk, w, j2)).rank;
            }
            assert(it == pair_at(rk, w, j));
        } else {
            assert(d1[k] == d0[k - 1]);
            lemma_leftmost_grows(rk, w, j, d0[k - 1]);
        }
    }
}

/// The first listed pair is the leftmost pair of least rank.
pub proof fn lemma_first_is_best(ranks: Map<Seq<char>, usize>, w: Seq<Seq<char>>, d: Seq<RankedPair>)
    requires
        w.len() >= 2,
        ranked_pairs_of(ranks, w, w.len() - 1, d),
    ensures
        d.len() > 0,
        d[0] == pair_at(ranks, w, best_index(ranks, w, w.len() - 1)),
{
    let m = w.len() - 1;
    let b = best_index(ranks, w, m);
    lemma_best_index(ranks, w, m);
    let kb = choose|k: int| 0 <= k < d.len() && #[trigger] d[k].rank == (#[trigger] pair_at(ranks, w, b)).rank;
    assert(d.len() > 0);
    assert(leftmost_of_rank(ranks, w, m, d[0]));
    let j0 = choose|j: int|
        0 <= j < m && d[0] == #[trigger] pair_at(ranks, w, j) && forall|j2: int|
            0 <= j2 < j ==> (#[trigger] pair_at(ranks, w, j2)).rank != d[0].rank;
    assert(d[0].rank <= d[kb].rank) by {
        if kb > 0 {
            assert(d[0].rank < d[kb].rank);
        }
    }
    assert(pair_at(ranks, w, b).rank <= pair_at(ranks, w, j0).rank);
    if j0 < b {
        assert(pair_at(ranks, w, b).rank < pair_at(ranks, w, j0).rank);
    }
    if b < j0 {
        assert(pair_at(ranks, w, b).rank != d[0].rank);
    }
}

/// `word` with each occurrence of `first` directly followed by `second`
/// joined, from left to right.
fn merge_word(word: &Vec<String>, first: &String, second: &String) -> (r: Vec<String>)
    ensures
        symbols(r@) == merge_pair(symbols(word@), first@, second@),
{
    let ghost w = symbols(word@);
    let n = word.len();
    let mut out: Vec<String> = Vec::new();
    let mut i: usize = 0;
    assert(w.skip(0) == w);
    while i < n
        invariant
            n == word@.len(),
            i <= n,
            w == symbols(word@),
            merge_pair(w, first@, second@) == symbols(out@) + merge_pair(w.skip(i as int), first@, second@),
        decreases n - i,
    {
        let ghost rest = w.skip(i as int);
        let ghost before = symbols(out@);
        if word[i] == *first && i + 1 < n && word[i + 1] == *second {
            out.push(join2(first, second));
            proof {
                assert(rest[0] == first@ && rest[1] == second@);
                assert(rest.skip(2) == w.skip(i + 2));
                assert(symbols(out@) == before.push(first@ + second@));
                assert(seq![first@ + second@] + merge_pair(rest.skip(2), first@, second@) == merge_pair(rest, first@, second@));
                assert(before + merge_pair(rest, first@, second@) == before.push(first@ + second@) + merge_pair(rest.skip(2), first@, second@));
            }
            i = i + 2;
        } else {
            out.push(word[i].clone());
            proof {
                assert(rest[0] == w[i as int]);
                assert(rest.skip(1) == w.skip(i + 1));
                assert(!(rest.len() >= 2 && rest[0] == first@ && rest[1] == second@)) by {
                    if rest.len() >= 2 && rest[0] == first@ && rest[1] == second@ {
                        assert(rest[1] == w[i + 1]);
                    }
                }
                assert(symbols(out@) == before.push(w[i as int]));
                assert(before + merge_pair(rest, first@, second@) == before.push(w[i as int]) + merge_pair(rest.skip(1), first@, second@));
            }
            i = i + 1;
        }
    }
    assert(w.skip(n as int).len() == 0);
    assert(symbols(out@) + seq![] == symbols(out@));
    out
}

/// Merges the symbols of `word` as byte-pair encoding prescribes.
fn bpe_word(ranks: &AHashMap<String, usize>, word: Vec<String>) -> (r: Vec<String>)
    requires
        word@.len() >= 1,
    ensures
        symbols(r@) == bpe_merge(rank_table(*ranks), symbols(word@)),
{
    let ghost rk = rank_table(*ranks);
    let ghost target = bpe_merge(rk, symbols(word@));
    let mut word = word;
    let mut pairs = get_ranked_pairs(ranks, &word);
    if word.len() < 2 {
        return word;
    }
    loop
        invariant_except_break
            word@.len() >= 2,
            rk == rank_table(*ranks),
            ranked_pairs_of(rk, symbols(word@), word@.len() - 1, ranked_view(pairs@)),
            bpe_merge(rk, symbols(word@)) == target,
        ensures
            symbols(word@) == target,
        decreases word@.len(),
    {
        let ghost w = symbols(word@);
        proof {
            lemma_first_is_best(rk, w, ranked_view(pairs@));
            lemma_best_index(rk, w, w.len() - 1);
        }
        let ghost b = best_index(rk, w, w.len() - 1);
        assert(ranked_view(pairs@)[0] == pairs@[0]@);
        let first = pairs[0].bigram.left.clone();
        let second = pairs[0].bigram.right.clone();
        assert(first@ == w[b] && second@ == w[b + 1]);
        let key = join2(&first, &second);
        if rank_table_get(ranks, key.as_str()).is_none() {
            break;
        }
        proof {
            lemma_merge_shrinks(w, w[b], w[b + 1], b);
        }
        word = merge_word(&word, &first, &second);
        if word.len() < 2 {
            assert(bpe_merge(rk, symbols(word@)) == symbols(word@));
            break;
        }
        pairs = get_ranked_pairs(ranks, &word);
    }
    word
}

/// One-character symbols for each character.
pub open spec fn singletons(s: Seq<char>) -> Seq<Seq<char>> {
    Seq::new(s.len(), |i: int| seq![s[i]])
}

/// The ids of the byte runes for the given bytes: each byte is looked up
/// under its decimal rendering; `None` when one is missing.
pub open spec fn byte_rune_ids(runes: Seq<(Seq<char>, u32)>, bytes: Seq<u8>) -> Option<Seq<u32>>
    decreases bytes.len(),
{
    if bytes.len() == 0 {
        Some(seq![])
    } else {
        match (byte_rune_ids(runes, bytes.drop_last()), lookup(runes, decimal(bytes.last() as nat))) {
            (Some(front), Some(id)) => Some(front.push(id)),
            _ => None,
        }
    }
}

/// The ids for one merged symbol: its vocabulary id; failing that, with byte
/// runes, the runes of its UTF-8 bytes (`None` when one is missing); without
/// byte runes, nothing.
pub open spec fn symbol_ids(vocab: Seq<(Seq<char>, u32)>, runes: Option<Seq<(Seq<char>, u32)>>, sym: Seq<char>) -> Option<Seq<u32>> {
    match lookup(vocab, sym) {
        Some(id) => Some(seq![id]),
        None => match runes {
            None => Some(seq![]),
            Some(r) => byte_rune_ids(r, encode_utf8(sym)),
        },
    }
}

/// The ids for a sequence of merged symbols, one after another.
pub open spec fn symbols_ids(vocab: Seq<(Seq<char>, u32)>, runes: Option<Seq<(Seq<char>, u32)>>, syms: Seq<Seq<char>>) -> Option<Seq<u32>>
    decreases syms.len(),
{
    if syms.len() == 0 {
        Some(seq![])
    } else {
        match (symbols_ids(vocab, runes, syms.drop_last()), symbol_ids(vocab, runes, syms.last())) {
            (Some(front), Some(ids)) => Some(front + ids),
            _ => None,
        }
    }
}

/// The byte runes of an optional ordered map.
pub open spec fn opt_entries(m: Option<OrderedIds>) -> Option<Seq<(Seq<char>, u32)>> {
    match m {
        Some(r) => Some(entries(r)),
        None => None,
    }
}

/// The ids of a fragment: its characters, merged, then looked up. `None`
/// for an empty fragment or a missing byte rune.
pub open spec fn bpe_ids(
    ranks: Map<Seq<char>, usize>,
    vocab: Seq<(Seq<char>, u32)>,
    runes: Option<Seq<(Seq<char>, u32)>>,
    fragment: Seq<char>,
) -> Option<Seq<u32>> {
    if fragment.len() == 0 {
        None
    } else {
        symbols_ids(vocab, runes, bpe_merge(ranks, singletons(fragment)))
    }
}

fn symbol_ids_exec(vocab: &OrderedIds, runes: &Option<OrderedIds>, sym: &String, out: &mut Vec<u32>) -> (ok: bool)
    ensures
        ok ==> (symbol_ids(entries(*vocab), opt_entries(*runes), sym@) matches Some(ids) && final(out)@ == old(out)@ + ids),
        !ok ==> symbol_ids(entries(*vocab), opt_entries(*runes), sym@) is None,
{
    match ordered_get(vocab, sym.as_str()) {
        Some(id) => {
            out.push(id);
            true
        },
        None => match runes {
            None => {
                assert(old(out)@ + Seq::<u32>::empty() == old(out)@);
                true
            },
            Some(r) => {
                let bytes = sym.as_str().as_bytes();
                let ghost bs = bytes@;
                let ghost start = out@;
                let mut k: usize = 0;
                assert(bs.take(0) == Seq::<u8>::empty());
                while k < bytes.len()
                    invariant
                        k <= bs.len(),
                        bs == bytes@,
                        lookup(entries(*vocab), sym@) is None,
                        opt_entries(*runes) == Some(entries(*r)),
                        bs == encode_utf8(sym@),
                        (byte_rune_ids(entries(*r), bs.take(k as int)) matches Some(ids) && out@ == start + ids),
                    decreases bs.len() - k,
                {
                    let key = string_of(decimal_chars(bytes[k] as u32).as_slice());
                    assert(bs.take(k + 1).drop_last() == bs.take(k as int));
                    assert(bs.take(k + 1).last() == bs[k as int]);
                    match ordered_get(r, key.as_str()) {
                        Some(id) => {
                            out.push(id);
                        },
                        None => {
                            proof {
                                assert(lookup(entries(*r), decimal(bs.take(k + 1).last() as nat)) is None);
                                assert(byte_rune_ids(entries(*r), bs.take(k + 1)) is None);
                                lemma_byte_runes_prefix_none(entries(*r), bs, k + 1);
                            }
                            return false;
                        },
                    }
                    k = k + 1;
                }
                assert(bs.take(bs.len() as int) == bs);
                true
            },
        },
    }
}

proof fn lemma_byte_runes_prefix_none(runes: Seq<(Seq<char>, u32)>, bs: Seq<u8>, k: int)
    requires
        0 <= k <= bs.len(),
        byte_rune_ids(runes, bs.take(k)) is None,
    ensures
        byte_rune_ids(runes, bs) is None,
    decreases bs.len() - k,
{
    if k < bs.len() {
        assert(bs.take(k + 1).drop_last() == bs.take(k));
        lemma_byte_runes_prefix_none(runes, bs, k + 1);
    } else {
        assert(bs.take(k) == bs);
    }
}

proof fn lemma_symbols_ids_prefix_none(vocab: Seq<(Seq<char>, u32)>, runes: Option<Seq<(Seq<char>, u32)>>, syms: Seq<Seq<char>>, k: int)
    requires
        0 <= k <= syms.len(),
        symbols_ids(vocab, runes, syms.take(k)) is None,
    ensures
        symbols_ids(vocab, runes, syms) is None,
    decreases syms.len() - k,
{
    if k < syms.len() {
        assert(syms.take(k + 1).drop_last() == syms.take(k));
        lemma_symbols_ids_prefix_none(vocab, runes, syms, k + 1);
    } else {
        assert(syms.take(k) == syms);
    }
}

/// The token ids of a fragment: its characters merged by byte-pair
/// encoding, each merged symbol looked up in the vocabulary or, failing
/// that, spelled with byte runes when there are any. `None` exactly when a
/// byte rune is missing.
pub fn to_bpe(ranks: &AHashMap<String, usize>, vocab: &OrderedIds, runes: &Option<OrderedIds>, fragment: &Vec<char>) -> (r: Option<Vec<u32>>)
    requires
        fragment@.len() > 0,
    ensures
        r matches Some(v) ==> bpe_ids(rank_table(*ranks), entries(*vocab), opt_entries(*runes), fragment@) == Some(v@),
        r is None ==> bpe_ids(rank_table(*ranks), entries(*vocab), opt_entries(*runes), fragment@) is None,
{
    let mut word: Vec<String> = Vec::new();
    for i in 0..fragment.len()
        invariant
            symbols(word@) == singletons(fragment@).take(i as int),
    {
        let mut s = String::new();
        s.push(fragment[i]);
        word.push(s);
        assert(singletons(fragment@).take(i + 1) == singletons(fragment@).take(i as int).push(seq![fragment@[i as int]]));
    }
    assert(singletons(fragment@).take(fragment@.len() as int) == singletons(fragment@));
    let merged = bpe_word(ranks, word);
    let ghost syms = symbols(merged@);
    let mut out: Vec<u32> = Vec::new();
    let mut k: usize = 0;
    assert(syms.take(0) == Seq::<Seq<char>>::empty());
    while k < merged.len()
        invariant
            k <= merged@.len(),
            syms == symbols(merged@),
            fragment@.len() > 0,
            syms == bpe_merge(rank_table(*ranks), singletons(fragment@)),
            symbols_ids(entries(*vocab), opt_entries(*runes), syms.take(k as int)) == Some(out@),
        decreases merged@.len() - k,
    {
        assert(syms.take(k + 1).drop_last() == syms.take(k as int));
        assert(syms.take(k + 1).last() == merged@[k as int]@);
        if !symbol_ids_exec(vocab, runes, &merged[k], &mut out) {
            proof {
                assert(symbols_ids(entries(*vocab), opt_entries(*runes), syms.take(k + 1)) is None);
                lemma_symbols_ids_prefix_none(entries(*vocab), opt_entries(*runes), syms, k + 1);
            }
            return None;
        }
        k = k + 1;
    }
    assert(syms.take(merged@.len() as int) == syms);
    Some(out)
}

/// Merging a pair never changes the text that the symbols spell.
pub proof fn lemma_merge_pair_keeps_text(w: Seq<Seq<char>>, first: Seq<char>, second: Seq<char>)
    ensures
        merge_pair(w, first, second).flatten() == w.flatten(),
    decreases w.len(),
{
    if w.len() == 0 {
    } else if w.len() >= 2 && w[0] == first && w[1] == second {
        lemma_merge_pair_keeps_text(w.skip(2), first, second);
        let m = merge_pair(w.skip(2), first, second);
        assert((seq![first + second] + m).first() == first + second);
        assert((seq![first + second] + m).drop_first() == m);
        assert(w.drop_first().first() == second);
        assert(w.drop_first().drop_first() == w.skip(2));
        assert(w.drop_first().flatten() == second + w.skip(2).flatten());
        assert(w.first() == first);
        assert(w.flatten() == first + (second + w.skip(2).flatten()));
        assert((first + second) + m.flatten() == first + (second + m.flatten()));
    } else {
        lemma_merge_pair_keeps_text(w.skip(1), first, second);
        let m = merge_pair(w.skip(1), first, second);
        assert((seq![w[0]] + m).first() == w[0]);
        assert((seq![w[0]] + m).drop_first() == m);
        assert(w.drop_first() == w.skip(1));
    }
}

/// Byte-pair merging never changes the text that the symbols spell.
pub proof fn lemma_bpe_merge_keeps_text(ranks: Map<Seq<char>, usize>, w: Seq<Seq<char>>)
    ensures
        bpe_merge(ranks, w).flatten() == w.flatten(),
    decreases w.len(),
{
    if w.len() > 1 {
        let b = best_index(ranks, w, w.len() - 1);
        if ranks.contains_key(w[b] + w[b + 1]) {
            lemma_best_index(ranks, w, w.len() - 1);
            lemma_merge_shrinks(w, w[b], w[b + 1], b);
            lemma_merge_pair_keeps_text(w, w[b], w[b + 1]);
            lemma_bpe_merge_keeps_text(ranks, merge_pair(w, w[b], w[b + 1]));
        }
    }
}

/// The one-character symbols of a text spell the text.
pub proof fn lemma_singletons_spell(t: Seq<char>)
    ensures
        singletons(t).flatten() == t,
    decreases t.len(),
{
    if t.len() > 0 {
        lemma_singletons_spell(t.drop_first());
        assert(singletons(t).drop_first() == singletons(t.drop_first()));
        assert(singletons(t).first() == seq![t[0]]);
        assert(seq![t[0]] + t.drop_first() == t);
    }
}

/// The symbols that byte-pair encoding makes of a text spell that text.
pub proof fn lemma_bpe_spells_fragment(ranks: Map<Seq<char>, usize>, t: Seq<char>)
    ensures
        bpe_merge(ranks, singletons(t)).flatten() == t,
{
    lemma_bpe_merge_keeps_text(ranks, singletons(t));
    lemma_singletons_spell(t);
}

} // verus!

//! Deciding whether the splitting walk ends. A step reads only the
//! position, the candidate, the node's path and the recorded special token,
//! and these range over a finite set; so the walk ends unless one of them
//! repeats or it would go back past the start.
use vstd::prelude::*;
use vstd::set_lib::{lemma_int_range, lemma_len_subset, set_int_range};
use crate::split::{
    split_halts, split_run, split_start, split_step, SplitState, ExecPiece, Piece, opt_chars, split_finish,
    split_pieces, split_fuel, flush_exec, copy_chars, same_chars, skip_chars, lemma_utf8_len_at_least,
};
use crate::text::{chars_of, utf8_len};
use crate::trie::{begins_special, SpecialsTreeNode};

verus! {

/// What a step of the walk reads: the position, the candidate, the node's
/// path and the recorded special token.
pub open spec fn walk_key(st: SplitState) -> (int, Seq<char>, Seq<char>, Option<Seq<char>>) {
    (st.pos, st.special, st.node, st.last_full)
}

/// The walk after `k` steps from `st`, when each of them is inside the
/// text and can be taken.
pub open spec fn walk_n(specials: Set<Seq<char>>, text: Seq<char>, st: SplitState, k: nat) -> Option<SplitState>
    decreases k,
{
    if k == 0 {
        Some(st)
    } else if st.pos >= text.len() {
        None
    } else {
        match split_step(specials, text, st) {
            Some(nx) => walk_n(specials, text, nx, (k - 1) as nat),
            None => None,
        }
    }
}

/// A run of at least `k` steps passes through the state after `k` steps; a
/// shorter run runs out of steps.
pub proof fn lemma_walk_run(specials: Set<Seq<char>>, text: Seq<char>, st: SplitState, k: nat, f: nat)
    requires
        walk_n(specials, text, st, k) is Some,
    ensures
        f >= k ==> split_run(specials, text, st, f) == split_run(specials, text, walk_n(specials, text, st, k)->0, (f - k) as nat),
        f < k ==> split_run(specials, text, st, f) is None,
    decreases k,
{
    if k > 0 && f > 0 {
        let nx = split_step(specials, text, st)->0;
        lemma_walk_run(specials, text, nx, (k - 1) as nat, (f - 1) as nat);
    }
}

/// Walking `a` steps and then `b` more is walking `a + b` steps.
pub proof fn lemma_walk_add(specials: Set<Seq<char>>, text: Seq<char>, st: SplitState, a: nat, b: nat)
    requires
        walk_n(specials, text, st, a) is Some,
    ensures
        walk_n(specials, text, st, a + b) == walk_n(specials, text, walk_n(specials, text, st, a)->0, b),
    decreases a,
{
    if a > 0 {
        let nx = split_step(specials, text, st)->0;
        lemma_walk_add(specials, text, nx, (a - 1) as nat, b);
        assert((a + b - 1) as nat == ((a - 1) as nat + b) as nat);
    }
}

/// States with the same key step alike.
proof fn lemma_key_step(specials: Set<Seq<char>>, text: Seq<char>, a: SplitState, b: SplitState)
    requires
        walk_key(a) == walk_key(b),
        a.pos < text.len(),
    ensures
        (split_step(specials, text, a) is Some) == (split_step(specials, text, b) is Some),
        split_step(specials, text, a) is Some ==> walk_key(split_step(specials, text, a)->0) == walk_key(split_step(specials, text, b)->0),
{
    assert(a.pos == b.pos && a.special == b.special && a.node == b.node && a.last_full == b.last_full);
}

/// Whether a run ends depends on the key alone.
proof fn lemma_key_run(specials: Set<Seq<char>>, text: Seq<char>, a: SplitState, b: SplitState, f: nat)
    requires
        walk_key(a) == walk_key(b),
    ensures
        (split_run(specials, text, a, f) is Some) == (split_run(specials, text, b, f) is Some),
    decreases f,
{
    assert(a.pos == b.pos);
    if a.pos < text.len() && f > 0 {
        lemma_key_step(specials, text, a, b);
        if split_step(specials, text, a) is Some {
            lemma_key_run(specials, text, split_step(specials, text, a)->0, split_step(specials, text, b)->0, (f - 1) as nat);
        }
    }
}

/// A walk that comes back to a key it had never ends.
proof fn lemma_loop_never_ends(specials: Set<Seq<char>>, text: Seq<char>, s1: SplitState, d: nat, f: nat)
    requires
        d > 0,
        walk_n(specials, text, s1, d) is Some,
        walk_key(walk_n(specials, text, s1, d)->0) == walk_key(s1),
    ensures
        split_run(specials, text, s1, f) is None,
    decreases f,
{
    lemma_walk_run(specials, text, s1, d, f);
    if f >= d {
        let s2 = walk_n(specials, text, s1, d)->0;
        lemma_key_run(specials, text, s2, s1, (f - d) as nat);
        lemma_loop_never_ends(specials, text, s1, d, (f - d) as nat);
    }
}

/// A walk that reaches a state from which no run ends does not end.
proof fn lemma_never_from(specials: Set<Seq<char>>, text: Seq<char>, k: nat, s1: SplitState)
    requires
        walk_n(specials, text, split_start(), k) == Some(s1),
        forall|f: nat| #[trigger] split_run(specials, text, s1, f) is None,
    ensures
        !split_halts(specials, text),
{
    assert forall|f: nat| #[trigger] split_run(specials, text, split_start(), f) is None by {
        lemma_walk_run(specials, text, split_start(), k, f);
        if f >= k {
            assert(split_run(specials, text, s1, (f - k) as nat) is None);
        }
    }
}

/// A walk that repeats a key does not end.
pub proof fn lemma_repeat_never_ends(specials: Set<Seq<char>>, text: Seq<char>, k1: nat, k2: nat)
    requires
        k1 < k2,
        walk_n(specials, text, split_start(), k2) is Some,
        walk_n(specials, text, split_start(), k1) is Some,
        walk_key(walk_n(specials, text, split_start(), k1)->0) == walk_key(walk_n(specials, text, split_start(), k2)->0),
    ensures
        !split_halts(specials, text),
{
    let s1 = walk_n(specials, text, split_start(), k1)->0;
    let d = (k2 - k1) as nat;
    lemma_walk_add(specials, text, split_start(), k1, d);
    assert(k1 + d == k2);
    assert forall|f: nat| #[trigger] split_run(specials, text, s1, f) is None by {
        lemma_loop_never_ends(specials, text, s1, d, f);
    }
    lemma_never_from(specials, text, k1, s1);
}

/// A walk that reaches a step it cannot take does not end.
pub proof fn lemma_stuck_never_ends(specials: Set<Seq<char>>, text: Seq<char>, k: nat, st: SplitState)
    requires
        walk_n(specials, text, split_start(), k) == Some(st),
        0 <= st.pos < text.len(),
        split_step(specials, text, st) is None,
    ensures
        !split_halts(specials, text),
{
    assert forall|f: nat| #[trigger] split_run(specials, text, st, f) is None by {
    }
    lemma_never_from(specials, text, k, st);
}

/// The shape of every key the walk reaches: the candidate is the text just
/// before the position, the node's path is empty or begins a special token,
/// and the recorded special token begins the candidate.
pub open spec fn key_shape(specials: Set<Seq<char>>, text: Seq<char>, key: (int, Seq<char>, Seq<char>, Option<Seq<char>>)) -> bool {
    &&& key.1.len() <= key.0 <= text.len()
    &&& key.1 == text.subrange(key.0 - key.1.len(), key.0)
    &&& (key.2.len() > 0 ==> begins_special(specials, key.2))
    &&& (key.3 matches Some(v) ==> v.is_prefix_of(key.1))
}

/// A step keeps the shape.
pub proof fn lemma_shape_step(specials: Set<Seq<char>>, text: Seq<char>, st: SplitState)
    requires
        key_shape(specials, text, walk_key(st)),
        0 <= st.pos < text.len(),
        split_step(specials, text, st) is Some,
    ensures
        key_shape(specials, text, walk_key(split_step(specials, text, st)->0)),
{
    let c = text[st.pos];
    let start = st.pos - st.special.len();
    let nx = split_step(specials, text, st)->0;
    if begins_special(specials, st.node.push(c)) {
        assert(st.special.push(c) == text.subrange(start, st.pos + 1));
        if let Some(v) = st.last_full {
            assert(v.is_prefix_of(st.special.push(c))) by {
                assert forall|i: int| 0 <= i < v.len() implies v[i] == st.special.push(c)[i] by {
                    assert(v[i] == st.special[i]);
                }
            }
        }
        if nx.last_full == Some(nx.special) {
            assert(nx.special.is_prefix_of(nx.special));
        }
    } else if st.special.len() == 0 {
        assert(nx.special == text.subrange(st.pos + 1, st.pos + 1));
        if let Some(v) = nx.last_full {
            assert(v.len() == 0 || v == nx.special);
        }
        if nx.last_full == Some(nx.special) {
            assert(nx.special.is_prefix_of(nx.special));
        }
    } else {
        assert(nx.special == text.subrange(nx.pos, nx.pos));
        if nx.last_full == Some(nx.special) {
            assert(nx.special.is_prefix_of(nx.special));
        }
    }
}

/// The longest of the names.
pub open spec fn max_len(names: Seq<Seq<char>>) -> nat
    decreases names.len(),
{
    if names.len() == 0 {
        0
    } else {
        let r = max_len(names.drop_last());
        if names.last().len() > r { names.last().len() } else { r }
    }
}

proof fn lemma_max_len(names: Seq<Seq<char>>, j: int)
    requires
        0 <= j < names.len(),
    ensures
        names[j].len() <= max_len(names),
    decreases names.len(),
{
    if j < names.len() - 1 {
        assert(names.drop_last()[j] == names[j]);
        lemma_max_len(names.drop_last(), j);
    }
}

/// Which name a non-empty node's path begins.
pub open spec fn node_index(names: Seq<Seq<char>>, node: Seq<char>) -> int {
    if node.len() == 0 {
        0
    } else {
        choose|j: int| 0 <= j < names.len() && node.len() <= names[j].len() && node == #[trigger] names[j].take(node.len() as int)
    }
}

/// Every special token is among the names.
pub open spec fn names_cover(specials: Set<Seq<char>>, names: Seq<Seq<char>>) -> bool {
    forall|s: Seq<char>| #[trigger] specials.contains(s) ==> names.contains(s)
}

proof fn lemma_node_index(specials: Set<Seq<char>>, names: Seq<Seq<char>>, node: Seq<char>)
    requires
        names_cover(specials, names),
        node.len() > 0 ==> begins_special(specials, node),
    ensures
        0 <= node_index(names, node) <= names.len(),
        node.len() <= max_len(names),
        node.len() > 0 ==> node_index(names, node) < names.len()
            && node.len() <= names[node_index(names, node)].len()
            && node == names[node_index(names, node)].take(node.len() as int),
{
    if node.len() > 0 {
        let s = choose|s: Seq<char>| #[trigger] specials.contains(s) && node.is_prefix_of(s);
        assert(names.contains(s));
        let j = choose|j: int| 0 <= j < names.len() && names[j] == s;
        assert(node == names[j].take(node.len() as int));
        let k = node_index(names, node);
        lemma_max_len(names, k);
    }
}

/// The number a key is coded as.
pub open spec fn key_code(names: Seq<Seq<char>>, n: int, key: (int, Seq<char>, Seq<char>, Option<Seq<char>>)) -> int {
    let lfc: int = match key.3 {
        None => 0,
        Some(v) => v.len() + 1int,
    };
    key.0 + (n + 1) * (key.1.len() + (n + 1) * (node_index(names, key.2) + (names.len() + 1) * (key.2.len() + (max_len(names) + 1) * lfc)))
}

/// A bound on the codes of the keys of a walk over a text of length `n`.
pub open spec fn code_bound(names: Seq<Seq<char>>, n: int) -> int {
    (n + 1) * ((n + 1) * ((names.len() + 1) * ((max_len(names) + 1) * (n + 2))))
}

proof fn lemma_radix(a1: int, b1: int, a2: int, b2: int, k: int)
    by (nonlinear_arith)
    requires
        0 <= a1 < k,
        0 <= a2 < k,
        0 <= b1,
        0 <= b2,
        a1 + k * b1 == a2 + k * b2,
    ensures
        a1 == a2,
        b1 == b2,
{
    if b1 < b2 {
        assert(k * b2 >= k * b1 + k);
    } else if b2 < b1 {
        assert(k * b1 >= k * b2 + k);
    }
}

proof fn lemma_radix_bound(a: int, b: int, k: int, bb: int)
    by (nonlinear_arith)
    requires
        0 <= a < k,
        0 <= b < bb,
    ensures
        0 <= a + k * b < k * bb,
{
    assert(k * b <= k * (bb - 1));
}

/// Every shaped key has a code within the bound, and distinct shaped keys
/// have distinct codes.
pub proof fn lemma_key_code(
    specials: Set<Seq<char>>,
    text: Seq<char>,
    names: Seq<Seq<char>>,
    k1: (int, Seq<char>, Seq<char>, Option<Seq<char>>),
    k2: (int, Seq<char>, Seq<char>, Option<Seq<char>>),
)
    requires
        names_cover(specials, names),
        key_shape(specials, text, k1),
        key_shape(specials, text, k2),
    ensures
        0 <= key_code(names, text.len() as int, k1) < code_bound(names, text.len() as int),
        key_code(names, text.len() as int, k1) == key_code(names, text.len() as int, k2) ==> k1 == k2,
{
    let n = text.len() as int;
    lemma_node_index(specials, names, k1.2);
    lemma_node_index(specials, names, k2.2);
    let l1: int = match k1.3 { None => 0, Some(v) => v.len() + 1int };
    let l2: int = match k2.3 { None => 0, Some(v) => v.len() + 1int };
    assert(0 <= l1 < n + 2);
    assert(0 <= l2 < n + 2);
    let kl: int = max_len(names) + 1int;
    let km: int = names.len() + 1int;
    let a1 = k1.2.len() + kl * l1;
    let a2 = k2.2.len() + kl * l2;
    lemma_radix_bound(k1.2.len() as int, l1, kl, n + 2);
    lemma_radix_bound(k2.2.len() as int, l2, kl, n + 2);
    let b1 = node_index(names, k1.2) + km * a1;
    let b2 = node_index(names, k2.2) + km * a2;
    lemma_radix_bound(node_index(names, k1.2), a1, km, kl * (n + 2));
    lemma_radix_bound(node_index(names, k2.2), a2, km, kl * (n + 2));
    let c1 = k1.1.len() + (n + 1) * b1;
    let c2 = k2.1.len() + (n + 1) * b2;
    lemma_radix_bound(k1.1.len() as int, b1, n + 1, km * (kl * (n + 2)));
    lemma_radix_bound(k2.1.len() as int, b2, n + 1, km * (kl * (n + 2)));
    lemma_radix_bound(k1.0, c1, n + 1, (n + 1) * (km * (kl * (n + 2))));
    if key_code(names, n, k1) == key_code(names, n, k2) {
        lemma_radix(k1.0, c1, k2.0, c2, n + 1);
        lemma_radix(k1.1.len() as int, b1, k2.1.len() as int, b2, n + 1);
        lemma_radix(node_index(names, k1.2), a1, node_index(names, k2.2), a2, km);
        lemma_radix(k1.2.len() as int, l1, k2.2.len() as int, l2, kl);
        assert(k1.1 == k2.1);
        if k1.2.len() == 0 {
            assert(k1.2 == k2.2);
        } else {
            assert(k1.2 == k2.2);
        }
        match (k1.3, k2.3) {
            (Some(v1), Some(v2)) => {
                assert(v1 == k1.1.take(v1.len() as int));
                assert(v2 == k2.1.take(v2.len() as int));
            },
            _ => {},
        }
    }
}

/// Distinct shaped keys are no more than the bound.
pub proof fn lemma_keys_bounded(
    specials: Set<Seq<char>>,
    text: Seq<char>,
    names: Seq<Seq<char>>,
    keys: Seq<(int, Seq<char>, Seq<char>, Option<Seq<char>>)>,
)
    requires
        names_cover(specials, names),
        forall|i: int| 0 <= i < keys.len() ==> key_shape(specials, text, #[trigger] keys[i]),
        forall|a: int, b: int| 0 <= a < b < keys.len() ==> keys[a] != keys[b],
    ensures
        keys.len() <= code_bound(names, text.len() as int),
{
    let n = text.len() as int;
    let bound = code_bound(names, n);
    let cs = keys.map_values(|k: (int, Seq<char>, Seq<char>, Option<Seq<char>>)| key_code(names, n, k));
    assert forall|a: int, b: int| 0 <= a < cs.len() && 0 <= b < cs.len() && a != b implies cs[a] != cs[b] by {
        lemma_key_code(specials, text, names, keys[a], keys[b]);
        if a < b {
            assert(keys[a] != keys[b]);
        } else {
            assert(keys[b] != keys[a]);
        }
    }
    assert(cs.no_duplicates());
    cs.unique_seq_to_set();
    assert(bound >= 0) by {
        if keys.len() > 0 {
            lemma_key_code(specials, text, names, keys[0], keys[0]);
        } else {
            lemma_radix_bound(0, 0, 1, 1);
            assert(0 <= n + 1);
            assert((n + 1) * ((n + 1) * ((names.len() + 1) * ((max_len(names) + 1) * (n + 2)))) >= 0) by (nonlinear_arith)
                requires
                    n >= 0,
            ;
        }
    }
    lemma_int_range(0, bound);
    assert forall|x: int| cs.to_set().contains(x) implies set_int_range(0, bound).contains(x) by {
        let i = choose|i: int| 0 <= i < cs.len() && cs[i] == x;
        lemma_key_code(specials, text, names, keys[i], keys[i]);
    }
    lemma_len_subset(cs.to_set(), set_int_range(0, bound));
}

/// The recorded keys are those of the walk's first steps, in order.
pub open spec fn visited_ok(specials: Set<Seq<char>>, text: Seq<char>, ks: Seq<WalkKey>) -> bool {
    forall|k: int| 0 <= k < ks.len() ==> #[trigger] key_at(specials, text, k) == Some(ks[k]@)
}

/// The key after `k` steps of the walk from the start, when it gets there.
pub open spec fn key_at(specials: Set<Seq<char>>, text: Seq<char>, k: int) -> Option<(int, Seq<char>, Seq<char>, Option<Seq<char>>)> {
    match walk_n(specials, text, split_start(), k as nat) {
        Some(st) => Some(walk_key(st)),
        None => None,
    }
}

proof fn lemma_visited_push(specials: Set<Seq<char>>, text: Seq<char>, ks: Seq<WalkKey>, key: WalkKey, st: SplitState)
    requires
        visited_ok(specials, text, ks),
        walk_n(specials, text, split_start(), ks.len() as nat) == Some(st),
        key@ == walk_key(st),
    ensures
        visited_ok(specials, text, ks.push(key)),
{
    let ks2 = ks.push(key);
    assert forall|k: int| 0 <= k < ks2.len() implies #[trigger] key_at(specials, text, k) == Some(ks2[k]@) by {
        if k < ks.len() {
            assert(ks2[k] == ks[k]);
        } else {
            assert(ks2[k] == key);
        }
    }
}

/// The key of a state of the executable walk.
pub struct WalkKey {
    pub pos: usize,
    pub special: Vec<char>,
    pub node: Vec<char>,
    pub last_full: Option<Vec<char>>,
}

impl View for WalkKey {
    type V = (int, Seq<char>, Seq<char>, Option<Seq<char>>);

    open spec fn view(&self) -> (int, Seq<char>, Seq<char>, Option<Seq<char>>) {
        (self.pos as int, self.special@, self.node@, opt_chars(self.last_full))
    }
}

fn key_eq(a: &WalkKey, b: &WalkKey) -> (r: bool)
    ensures
        r == (a@ == b@),
{
    if a.pos != b.pos || !same_chars(&a.special, &b.special) || !same_chars(&a.node, &b.node) {
        return false;
    }
    match (&a.last_full, &b.last_full) {
        (Some(x), Some(y)) => same_chars(x, y),
        (None, None) => true,
        _ => false,
    }
}

fn opt_copy(o: &Option<Vec<char>>) -> (r: Option<Vec<char>>)
    ensures
        opt_chars(r) == opt_chars(*o),
{
    match o {
        Some(v) => Some(copy_chars(v)),
        None => None,
    }
}

/// Walks `chars` through the special-token tree `root`, which holds the
/// tokens `specials` (all among `names`), and returns the pieces that
/// splitting emits, or `None` exactly when the walk does not end: it comes
/// back to a key it had, or would go back past the start.
pub fn split_pieces_checked(
    root: &SpecialsTreeNode,
    chars: &Vec<char>,
    Ghost(specials): Ghost<Set<Seq<char>>>,
    Ghost(names): Ghost<Seq<Seq<char>>>,
) -> (r: Option<Vec<ExecPiece>>)
    requires
        root.models(seq![], specials),
        names_cover(specials, names),
    ensures
        r is Some == split_halts(specials, chars@),
        r matches Some(v) ==> v@.map_values(|p: ExecPiece| p@) == split_pieces(specials, chars@),
{
    let ghost text = chars@;
    let ghost bound = code_bound(names, text.len() as int);
    let mut pieces: Vec<ExecPiece> = Vec::new();
    let mut acc: Vec<char> = Vec::new();
    let mut special: Vec<char> = Vec::new();
    let mut last_full: Option<Vec<char>> = None;
    let mut cur: &SpecialsTreeNode = root;
    let mut node: Vec<char> = Vec::new();
    let mut visited: Vec<WalkKey> = Vec::new();
    let mut i: usize = 0;
    let n = chars.len();
    proof {
        assert(pieces@.map_values(|p: ExecPiece| p@) == Seq::<Piece>::empty());
        assert(text.subrange(0, 0) == Seq::<char>::empty());
        lemma_keys_bounded(specials, text, names, Seq::empty());
    }
    while i < n
        invariant
            n == chars@.len(),
            text == chars@,
            bound == code_bound(names, text.len() as int),
            root.models(seq![], specials),
            names_cover(specials, names),
            cur.models(node@, specials),
            last_full matches Some(v) ==> v@.is_prefix_of(special@),
            walk_n(specials, text, split_start(), visited@.len() as nat) == Some(SplitState {
                pos: i as int, acc: acc@, special: special@, node: node@,
                last_full: opt_chars(last_full),
                pieces: pieces@.map_values(|p: ExecPiece| p@),
            }),
            key_shape(specials, text, (i as int, special@, node@, opt_chars(last_full))),
            visited_ok(specials, text, visited@),
            forall|k: int| 0 <= k < visited@.len() ==> key_shape(specials, text, #[trigger] visited@[k]@),
            forall|a: int, b: int| 0 <= a < b < visited@.len() ==> visited@[a]@ != visited@[b]@,
            visited@.len() <= bound,
        decreases bound - visited@.len(),
    {
        let ghost st = SplitState {
            pos: i as int, acc: acc@, special: special@, node: node@,
            last_full: opt_chars(last_full),
            pieces: pieces@.map_values(|p: ExecPiece| p@),
        };
        let ghost steps = visited@.len() as nat;
        let key = WalkKey { pos: i, special: copy_chars(&special), node: copy_chars(&node), last_full: opt_copy(&last_full) };
        assert(key@ == walk_key(st));
        let mut q: usize = 0;
        while q < visited.len()
            invariant
                q <= visited@.len(),
                steps == visited@.len(),
                text == chars@,
                key@ == walk_key(st),
                walk_n(specials, text, split_start(), steps) == Some(st),
                visited_ok(specials, text, visited@),
                forall|r: int| 0 <= r < q ==> visited@[r]@ != key@,
            decreases visited@.len() - q,
        {
            if key_eq(&visited[q], &key) {
                proof {
                    assert(key_at(specials, text, q as int) == Some(visited@[q as int]@));
                    lemma_repeat_never_ends(specials, text, q as nat, steps);
                }
                return None;
            }
            q = q + 1;
        }
        let ghost keys = visited@.map_values(|k: WalkKey| k@).push(key@);
        proof {
            assert forall|a: int, b: int| 0 <= a < b < keys.len() implies keys[a] != keys[b] by {
                if b < visited@.len() {
                    assert(keys[a] == visited@[a]@ && keys[b] == visited@[b]@);
                } else {
                    assert(keys[a] == visited@[a]@);
                }
            }
            assert forall|k: int| 0 <= k < keys.len() implies key_shape(specials, text, #[trigger] keys[k]) by {
                if k < visited@.len() {
                    assert(keys[k] == visited@[k]@);
                }
            }
            lemma_keys_bounded(specials, text, names, keys);
        }
        let ghost vis0 = visited@;
        visited.push(key);
        let c = chars[i];
        match cur.find_child(c) {
            Some(k) => {
                let ghost parent = *cur;
                cur = &cur.children[k];
                special.push(c);
                node.push(c);
                proof {
                    assert(parent.children@[k as int] == *cur);
                }
                i = i + 1;
            },
            None => {
                assert(!begins_special(specials, st.node.push(c)));
                if special.len() == 0 {
                    acc.push(c);
                    i = i + 1;
                } else if last_full.is_none() {
                    let b = utf8_len(&special);
                    proof {
                        lemma_utf8_len_at_least(special@);
                    }
                    if (i as u128) < b - 1 {
                        proof {
                            lemma_stuck_never_ends(specials, text, steps, st);
                        }
                        return None;
                    }
                    let back = (b - 1) as usize;
                    let first = special[0];
                    acc.push(first);
                    i = i - back;
                    special = Vec::new();
                    node = Vec::new();
                    cur = root;
                } else {
                    let v = last_full.unwrap();
                    let extra = skip_chars(&special, v.len());
                    let b = utf8_len(&extra);
                    if (i as u128) < b {
                        proof {
                            lemma_stuck_never_ends(specials, text, steps, st);
                        }
                        return None;
                    }
                    let back = b as usize;
                    i = i - back;
                    let taken = acc;
                    acc = Vec::new();
                    let reset = v.len() > 0;
                    flush_exec(&mut pieces, taken, v);
                    special = Vec::new();
                    last_full = None;
                    if reset {
                        cur = root;
                        node = Vec::new();
                    }
                }
            },
        }
        assert(cur.models(node@, specials));
        match &cur.value {
            Some(v) => {
                if same_chars(&chars_of(v.as_str()), &special) {
                    last_full = Some(copy_chars(&special));
                }
            },
            None => {},
        }
        proof {
            let next = split_step(specials, text, st)->0;
            let st2 = SplitState {
                pos: i as int, acc: acc@, special: special@, node: node@,
                last_full: opt_chars(last_full),
                pieces: pieces@.map_values(|p: ExecPiece| p@),
            };
            assert(split_step(specials, text, st) is Some);
            assert(st2 == next);
            lemma_shape_step(specials, text, st);
            lemma_walk_add(specials, text, split_start(), steps, 1);
            assert(walk_n(specials, text, next, 0) == Some(next));
            assert(walk_n(specials, text, st, 1) == Some(next));
            assert(visited@ == vis0.push(key));
            lemma_visited_push(specials, text, vis0, key, st);
            assert(visited_ok(specials, text, visited@));
            assert forall|k: int| 0 <= k < visited@.len() implies key_shape(specials, text, #[trigger] visited@[k]@) by {
                if k < steps {
                    assert(visited@[k] == vis0[k]);
                } else {
                    assert(visited@[k] == key);
                }
            }
            assert forall|a: int, b: int| 0 <= a < b < visited@.len() implies visited@[a]@ != visited@[b]@ by {
                assert(visited@[a]@ == keys[a] && visited@[b]@ == keys[b]);
            }
        }
    }
    let ghost st = SplitState {
        pos: i as int, acc: acc@, special: special@, node: node@,
        last_full: opt_chars(last_full),
        pieces: pieces@.map_values(|p: ExecPiece| p@),
    };
    let ghost steps = visited@.len() as nat;
    if special.len() > 0 {
        match last_full {
            Some(v) => {
                let extra = skip_chars(&special, v.len());
                flush_exec(&mut pieces, acc, v);
                flush_exec(&mut pieces, extra, Vec::new());
            },
            None => {
                let mut joined = acc;
                for j in 0..special.len()
                    invariant
                        joined@ == st.acc + special@.take(j as int),
                {
                    joined.push(special[j]);
                    assert(special@.take(j + 1) == special@.take(j as int).push(special@[j as int]));
                }
                assert(special@.take(special@.len() as int) == special@);
                flush_exec(&mut pieces, joined, Vec::new());
            },
        }
    } else {
        flush_exec(&mut pieces, acc, Vec::new());
    }
    proof {
        let fin = split_finish(st);
        assert(pieces@.map_values(|p: ExecPiece| p@) == fin);
        lemma_walk_run(specials, text, split_start(), steps, steps);
        assert(split_run(specials, text, split_start(), steps) == Some(fin));
        assert(split_halts(specials, text));
        let f = split_fuel(specials, text);
        lemma_walk_run(specials, text, split_start(), steps, f);
        if f >= steps {
            assert(split_run(specials, text, st, (f - steps) as nat) == Some(fin));
        }
    }
    Some(pieces)
}

} // verus!

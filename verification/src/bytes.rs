//! The reversible mapping between the 256 byte values and 256 printable
//! characters that byte-level BPE vocabularies are written in.
use vstd::prelude::*;
use ahash::AHashMap;
use ahash::RandomState;
use indexmap::IndexMap;
use crate::collections::{entries, has_key, id_table, id_table_get, id_table_insert, id_table_new, keys_unique, lemma_lookup_insert, lookup, ordered_insert, ordered_new};

verus! {

/// Bytes that stand for themselves: `!`..=`~`, `¡`..=`¬` and `®`..=`ÿ`.
pub open spec fn printable(b: nat) -> bool {
    (33 <= b <= 126) || (161 <= b <= 172) || (174 <= b <= 255)
}

/// How many bytes below `b` do not stand for themselves.
pub open spec fn shifted_below(b: nat) -> nat {
    if b <= 33 {
        b
    } else if b <= 127 {
        33
    } else if b <= 161 {
        (b - 94) as nat
    } else if b <= 173 {
        67
    } else {
        68
    }
}

/// The code of the character that stands for byte `b`: the byte itself when
/// it is printable, else 256 plus the number of earlier non-printable bytes.
pub open spec fn byte_code(b: nat) -> nat {
    if printable(b) {
        b
    } else {
        256 + shifted_below(b)
    }
}

/// The character that stands for byte `b`.
pub open spec fn byte_char(b: nat) -> char {
    (byte_code(b) as u32) as char
}

/// The byte-to-character table: each byte below 256 maps to the one-character
/// string of its character.
pub open spec fn byte_table() -> Map<u32, Seq<char>> {
    Map::new(|b: u32| b < 256, |b: u32| seq![byte_char(b as nat)])
}

/// The character-to-byte table, as ordered entries, holds exactly the
/// inverse of `byte_table`.
pub open spec fn char_table(e: Seq<(Seq<char>, u32)>) -> bool {
    &&& keys_unique(e)
    &&& forall|b: u32| b < 256 ==> #[trigger] lookup(e, seq![byte_char(b as nat)]) == Some(b)
    &&& forall|k: Seq<char>| #[trigger] has_key(e, k) ==> exists|b: u32| b < 256 && k == seq![byte_char(b as nat)]
}

/// Distinct bytes are represented by distinct characters, and every
/// character code stays below 324.
pub proof fn lemma_byte_code_injective(a: nat, b: nat)
    requires
        a < 256,
        b < 256,
    ensures
        byte_code(a) < 324,
        (byte_code(a) == byte_code(b)) == (a == b),
        byte_char(a) == byte_char(b) ==> a == b,
{
    lemma_byte_char_code(a);
    lemma_byte_char_code(b);
}

/// The character for a byte has exactly the byte's code.
pub proof fn lemma_byte_char_code(b: nat)
    requires
        b < 256,
    ensures
        byte_char(b) as u32 == byte_code(b),
{
    let c = byte_code(b) as u32;
    assert(vstd::utf8::is_scalar(c));
    vstd::utf8::char_u32_cast(c as char, c as char as u32);
    assert((c as char) as u32 == c) by {
        broadcast use vstd::utf8::char_u32_cast;
    }
}

fn one_char_string(code: u32) -> (r: String)
    requires
        code < 0xD800,
    ensures
        r@ == seq![code as char],
{
    let c = char::from_u32(code).unwrap();
    let mut r = String::new();
    r.push(c);
    r
}

/// Builds the byte-to-character and character-to-byte tables.
pub fn build_byte_tables() -> (r: (AHashMap<u32, String>, IndexMap<String, u32, RandomState>))
    ensures
        id_table(r.0) == byte_table(),
        char_table(entries(r.1)),
{
    let mut first: AHashMap<u32, String> = id_table_new();
    let mut unicode_bytes: IndexMap<String, u32, RandomState> = ordered_new();
    let ghost mut placed: Set<u32> = Set::empty();
    let mut i: u32 = 0;
    while i < 256
        invariant
            i <= 256,
            forall|b: u32| #[trigger] id_table(first).contains_key(b) <==> (b < i && printable(b as nat)),
            forall|b: u32| id_table(first).contains_key(b) ==> #[trigger] id_table(first)[b] == seq![byte_char(b as nat)],
            keys_unique(entries(unicode_bytes)),
            forall|b: u32| b < i && printable(b as nat) ==> #[trigger] lookup(entries(unicode_bytes), seq![byte_char(b as nat)]) == Some(b),
            forall|k: Seq<char>| #[trigger] has_key(entries(unicode_bytes), k) ==> exists|b: u32| b < i && printable(b as nat) && k == seq![byte_char(b as nat)],
        decreases 256 - i,
    {
        if (33 <= i && i <= 126) || (161 <= i && i <= 172) || (174 <= i) {
            let s = one_char_string(i);
            proof { lemma_byte_char_code(i as nat); }
            let ghost old_e = entries(unicode_bytes);
            id_table_insert(&mut first, i, s.clone());
            ordered_insert(&mut unicode_bytes, s, i);
            proof {
                assert forall|b: u32| b < i + 1 && printable(b as nat) implies #[trigger] lookup(entries(unicode_bytes), seq![byte_char(b as nat)]) == Some(b) by {
                    lemma_lookup_insert(old_e, seq![byte_char(i as nat)], i, seq![byte_char(b as nat)]);
                    lemma_byte_code_injective(b as nat, i as nat);
                    if b != i {
                        assert(seq![byte_char(b as nat)][0] != seq![byte_char(i as nat)][0]);
                    }
                }
                assert forall|k: Seq<char>| #[trigger] has_key(entries(unicode_bytes), k) implies exists|b: u32| b < i + 1 && printable(b as nat) && k == seq![byte_char(b as nat)] by {
                    lemma_lookup_insert(old_e, seq![byte_char(i as nat)], i, k);
                    if k == seq![byte_char(i as nat)] {
                        assert(i < i + 1 && printable(i as nat));
                    }
                }
                lemma_lookup_insert(old_e, seq![byte_char(i as nat)], i, seq![]);
            }
        }
        i = i + 1;
    }
    let mut bytes_unicode: AHashMap<u32, String> = id_table_new();
    let mut shifted: u32 = 0;
    let mut i: u32 = 0;
    while i < 256
        invariant
            i <= 256,
            shifted == shifted_below(i as nat),
            forall|b: u32| #[trigger] id_table(first).contains_key(b) <==> (b < i || (b < 256 && printable(b as nat))),
            forall|b: u32| id_table(first).contains_key(b) ==> #[trigger] id_table(first)[b] == seq![byte_char(b as nat)],
            forall|b: u32| #[trigger] id_table(bytes_unicode).contains_key(b) <==> b < i,
            forall|b: u32| id_table(bytes_unicode).contains_key(b) ==> #[trigger] id_table(bytes_unicode)[b] == seq![byte_char(b as nat)],
            keys_unique(entries(unicode_bytes)),
            forall|b: u32| (b < i || (b < 256 && printable(b as nat))) ==> #[trigger] lookup(entries(unicode_bytes), seq![byte_char(b as nat)]) == Some(b),
            forall|k: Seq<char>| #[trigger] has_key(entries(unicode_bytes), k) ==> exists|b: u32| (b < i || (b < 256 && printable(b as nat))) && k == seq![byte_char(b as nat)],
        decreases 256 - i,
    {
        let present = id_table_get(&first, i).is_some();
        if !present {
            assert(!printable(i as nat));
            let code: u32 = 256 + shifted;
            let s = one_char_string(code);
            proof { lemma_byte_char_code(i as nat); }
            let ghost old_e = entries(unicode_bytes);
            id_table_insert(&mut first, i, s.clone());
            ordered_insert(&mut unicode_bytes, s, i);
            proof {
                assert forall|b: u32| (b < i + 1 || (b < 256 && printable(b as nat))) implies #[trigger] lookup(entries(unicode_bytes), seq![byte_char(b as nat)]) == Some(b) by {
                    lemma_lookup_insert(old_e, seq![byte_char(i as nat)], i, seq![byte_char(b as nat)]);
                    lemma_byte_code_injective(b as nat, i as nat);
                    if b != i {
                        assert(seq![byte_char(b as nat)][0] != seq![byte_char(i as nat)][0]);
                    }
                }
                assert forall|k: Seq<char>| #[trigger] has_key(entries(unicode_bytes), k) implies exists|b: u32| (b < i + 1 || (b < 256 && printable(b as nat))) && k == seq![byte_char(b as nat)] by {
                    lemma_lookup_insert(old_e, seq![byte_char(i as nat)], i, k);
                    if k == seq![byte_char(i as nat)] {
                        assert(i < i + 1);
                    }
                }
                lemma_lookup_insert(old_e, seq![byte_char(i as nat)], i, seq![]);
            }
            shifted = shifted + 1;
        }
        let s = id_table_get(&first, i).unwrap().clone();
        id_table_insert(&mut bytes_unicode, i, s);
        i = i + 1;
    }
    assert(id_table(bytes_unicode) =~= byte_table());
    (bytes_unicode, unicode_bytes)
}

} // verus!

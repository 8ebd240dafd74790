use nai_tokenizer::Tokenizer;
use nai_tokenizer::bpe::{insert_sorted_no_dups, BGERank, GPTPair};

const GPT2_PATTERN: &str = r"'s|'t|'re|'ve|'m|'ll|'d| ?\p{L}+| ?\p{N}+| ?[^\s\p{L}\p{N}]+|\s+(?!\S)|\s+";

fn printable(b: u32) -> bool {
    (33..=126).contains(&b) || (161..=172).contains(&b) || (174..=255).contains(&b)
}

fn byte_char(b: u32) -> char {
    if printable(b) {
        char::from_u32(b).unwrap()
    } else {
        let shifted = (0..b).filter(|x| !printable(*x)).count() as u32;
        char::from_u32(256 + shifted).unwrap()
    }
}

fn s(x: &str) -> String {
    x.to_string()
}

/// A byte-level vocabulary: the 256 byte characters with ids 0..=255, then
/// a few merges and one special token.
fn byte_level() -> Tokenizer {
    let mut vocab: Vec<(String, u32)> = (0..256u32).map(|b| (byte_char(b).to_string(), b)).collect();
    vocab.push((s("He"), 256));
    vocab.push((s("ll"), 257));
    vocab.push((s("Hell"), 258));
    vocab.push((s("Ġw"), 259));
    vocab.push((s("<|endoftext|>"), 260));
    let merges = vec![
        vec![s("H"), s("e")],
        vec![s("l"), s("l")],
        vec![s("He"), s("ll")],
        vec![s("Ġ"), s("w")],
    ];
    Tokenizer::try_new(vocab, merges, vec![s("<|endoftext|>")], s(GPT2_PATTERN)).unwrap()
}

/// A vocabulary with byte runes written `0x..`.
fn with_runes() -> Tokenizer {
    let vocab = vec![
        (s("a"), 0),
        (s("b"), 1),
        (s("ab"), 2),
        (s("0x63"), 3),
        (s("0xC3"), 4),
        (s("0xA9"), 5),
        (s("<s>"), 6),
    ];
    Tokenizer::try_new(vocab, vec![vec![s("a"), s("b")]], vec![s("<s>")], s(r"\S+|\s+")).unwrap()
}

#[test]
fn byte_characters_follow_the_byte_table() {
    assert_eq!(byte_char(b'!' as u32), '!');
    assert_eq!(byte_char(32), 'Ġ');
    assert_eq!(byte_char(0), 'Ā');
    assert_eq!(byte_char(173), 'Ń');
}

#[test]
fn encodes_with_merges_and_specials() {
    let t = byte_level();
    assert_eq!(t.try_encode("Hello world<|endoftext|>!").unwrap(), vec![258, 111, 259, 111, 114, 108, 100, 260, 33]);
}

#[test]
fn encode_without_check_gives_the_same_ids() {
    let t = byte_level();
    assert_eq!(t.encode("Hello world"), vec![258, 111, 259, 111, 114, 108, 100]);
}

#[test]
fn decode_restores_the_text() {
    let t = byte_level();
    let ids = t.encode("Hello world<|endoftext|>!");
    assert_eq!(t.decode(&ids), "Hello world<|endoftext|>!");
}

#[test]
fn roundtrip_on_a_sentence() {
    let t = byte_level();
    let text = "Hello, world!\nI have a huge love for you all.";
    let ids = t.try_encode(text).unwrap();
    assert_eq!(t.try_decode(&ids).unwrap(), text);
}

#[test]
fn partial_special_is_plain_text() {
    let t = byte_level();
    assert_eq!(t.encode("<|end"), vec![60, 124, 101, 110, 100]);
    assert_eq!(t.decode(&[60, 124, 101, 110, 100]), "<|end");
}

#[test]
fn decode_of_unknown_id_fails() {
    let t = byte_level();
    assert_eq!(t.try_decode(&[5000]), None);
}

#[test]
fn byte_runes_spell_unknown_symbols() {
    let t = with_runes();
    assert_eq!(t.encode("abc<s>é"), vec![2, 3, 6, 4, 5]);
}

#[test]
fn byte_runes_decode_to_character_codes() {
    let t = with_runes();
    assert_eq!(t.decode(&[2, 3, 6, 4, 5]), "abc<s>\u{c3}\u{a9}");
}

#[test]
fn missing_byte_rune_fails_to_encode() {
    let t = with_runes();
    assert_eq!(t.try_encode("d"), None);
}

#[test]
fn unitrim_counts_continuations() {
    let t = with_runes();
    assert_eq!(t.make_unitrim(), vec![0, 0, 0, 0, 1, -1, 0]);
}

#[test]
fn unitrim_of_byte_level_vocabulary() {
    let t = byte_level();
    let u = t.try_make_unitrim().unwrap();
    assert_eq!(u.len(), 261);
    assert_eq!(u[b'A' as usize], 0);
    assert_eq!(u[0xC3], 0);
}

#[test]
fn tokens_containing_keeps_vocabulary_order() {
    let t = byte_level();
    assert_eq!(t.tokens_containing("ll"), vec![(s("ll"), 257), (s("Hell"), 258)]);
    assert_eq!(t.tokens_containing("zz"), vec![]);
}

#[test]
fn total_tokens_counts_the_vocabulary() {
    assert_eq!(byte_level().total_tokens(), 261);
    assert_eq!(with_runes().total_tokens(), 7);
}

#[test]
fn special_missing_from_vocabulary_is_refused() {
    let vocab = vec![(s("a"), 0)];
    assert!(Tokenizer::try_new(vocab, vec![], vec![s("<s>")], s(r"\S+")).is_none());
}

#[test]
fn merge_missing_from_vocabulary_is_refused() {
    let vocab = vec![(s("a"), 0), (s("b"), 1)];
    assert!(Tokenizer::try_new(vocab, vec![vec![s("a"), s("b")]], vec![], s(r"\S+")).is_none());
}

#[test]
fn bad_byte_rune_is_refused() {
    let vocab = vec![(s("0xZZ"), 0)];
    assert!(Tokenizer::try_new(vocab, vec![], vec![], s(r"\S+")).is_none());
}

#[test]
fn bad_pattern_is_refused() {
    let vocab = vec![(s("a"), 0)];
    assert!(Tokenizer::try_new(vocab, vec![], vec![], s("(")).is_none());
}

#[test]
fn ascii_specials_are_recognised() {
    assert!(byte_level().specials_are_ascii());
    assert!(with_runes().specials_are_ascii());
}

#[test]
fn non_ascii_special_is_not_ascii() {
    let vocab = vec![(s("a"), 0), (s("é"), 1)];
    let t = Tokenizer::try_new(vocab, vec![], vec![s("é")], s(r"\S+")).unwrap();
    assert!(!t.specials_are_ascii());
}

#[test]
fn empty_special_is_ascii() {
    let vocab = vec![(s("a"), 0), (s(""), 1)];
    let t = Tokenizer::try_new(vocab, vec![], vec![s("")], s(r"\S+")).unwrap();
    assert!(t.specials_are_ascii());
}

#[test]
fn emitting_an_empty_special_keeps_the_tree_position() {
    let vocab = vec![(s("x"), 0), (s("c"), 1), (s("d"), 2), (s("e"), 3), (s(""), 4), (s("ce"), 5)];
    let t = Tokenizer::try_new(vocab, vec![], vec![s(""), s("ce")], s(r"\S+")).unwrap();
    assert!(t.specials_are_ascii());
    assert_eq!(t.try_encode("xcd").unwrap(), vec![0, 1, 2]);
    assert_eq!(t.try_encode("xce").unwrap(), vec![0, 5]);
}

#[test]
fn roundtrip_with_byte_runes_when_tokens_cover_the_text() {
    let t = with_runes();
    let ids = t.encode("abab<s>ba");
    assert_eq!(ids, vec![2, 2, 6, 1, 0]);
    assert_eq!(t.decode(&ids), "abab<s>ba");
}

#[test]
fn non_ascii_text_decodes_byte_by_byte() {
    let t = byte_level();
    let ids = t.encode("é");
    assert_eq!(ids, vec![195, 169]);
    assert_eq!(t.decode(&ids), "\u{c3}\u{a9}");
}

#[test]
fn special_token_alone_gives_its_id() {
    let t = byte_level();
    assert_eq!(t.encode("<|endoftext|>"), vec![260]);
    assert_eq!(t.decode(&[260]), "<|endoftext|>");
}

#[test]
fn control_characters_use_shifted_byte_characters() {
    let t = byte_level();
    let ids = t.encode("a\nb");
    assert_eq!(ids, vec![97, 10, 98]);
    assert_eq!(t.decode(&ids), "a\nb");
}

fn assert_send<T: Send>() {}

#[test]
fn tokenizer_can_be_sent_between_threads() {
    assert_send::<Tokenizer>();
}

#[test]
fn encoding_splits_around_a_special_token() {
    let t = byte_level();
    let whole = t.encode("Hello world<|endoftext|>world!");
    let parts = [t.encode("Hello world"), vec![260], t.encode("world!")].concat();
    assert_eq!(whole, parts);
}

#[test]
fn two_builds_give_the_same_results() {
    let a = byte_level();
    let b = byte_level();
    let text = "Hello world<|endoftext|> again\n";
    assert_eq!(a.encode(text), b.encode(text));
    assert_eq!(a.decode(&a.encode(text)), b.decode(&b.encode(text)));
    assert_eq!(a.make_unitrim(), b.make_unitrim());
    assert_eq!(a.tokens_containing("l"), b.tokens_containing("l"));
}

#[test]
fn roundtrip_through_byte_runes_for_missing_characters() {
    let t = with_runes();
    let ids = t.encode("abcab");
    assert_eq!(ids, vec![2, 3, 2]);
    assert_eq!(t.decode(&ids), "abcab");
}

#[test]
fn non_ascii_tokens_roundtrip_with_byte_runes() {
    let vocab = vec![(s("é"), 0), (s("a"), 1), (s("0x20"), 2)];
    let t = Tokenizer::try_new(vocab, vec![], vec![], s(r"\S+|\s+")).unwrap();
    let ids = t.encode("éa é");
    assert_eq!(ids, vec![0, 1, 2, 0]);
    assert_eq!(t.decode(&ids), "éa é");
}

fn with_accented_special(special: &str) -> Tokenizer {
    let vocab = vec![(s("h"), 0), (s("e"), 1), (s("l"), 2), (s("o"), 3), (s("a"), 4), (s("b"), 5), (s(special), 6)];
    Tokenizer::try_new(vocab, vec![], vec![s(special)], s(r"\S+")).unwrap()
}

#[test]
fn checked_encode_with_a_non_ascii_special() {
    let t = with_accented_special("é");
    assert!(!t.specials_are_ascii());
    let ids = t.encode_checked("hello").unwrap();
    assert_eq!(ids, vec![0, 1, 2, 2, 3]);
    assert_eq!(t.decode(&ids), "hello");
    assert_eq!(t.encode_checked("aéb").unwrap(), vec![4, 6, 5]);
}

#[test]
fn checked_encode_refuses_a_walk_that_does_not_end() {
    let t = with_accented_special("éa");
    assert_eq!(t.encode_checked("éb"), None);
}

#[test]
fn checked_encode_agrees_with_encode() {
    let t = byte_level();
    let text = "Hello world<|endoftext|>!";
    assert_eq!(t.encode_checked(text).unwrap(), t.encode(text));
    assert_eq!(with_runes().encode_checked("d"), None);
}

#[test]
fn repeated_keys_count_once() {
    let vocab = vec![(s("a"), 0), (s("b"), 1), (s("a"), 2)];
    let t = Tokenizer::try_new(vocab, vec![], vec![], s(r"\S+")).unwrap();
    assert_eq!(t.total_tokens(), 2);
    assert_eq!(t.encode_checked("a").unwrap(), vec![2]);
}

fn ranked(rank: u64, left: &str, right: &str) -> BGERank {
    BGERank { rank, bigram: GPTPair { left: s(left), right: s(right) } }
}

#[test]
fn ranked_pairs_insert_after_smaller_ranks_once() {
    let mut data = vec![ranked(1, "a", "b"), ranked(5, "c", "d")];
    insert_sorted_no_dups(&mut data, ranked(3, "e", "f"));
    assert_eq!(data.iter().map(|r| r.rank).collect::<Vec<u64>>(), vec![1, 3, 5]);
    assert_eq!(data[1].bigram.left, "e");
    insert_sorted_no_dups(&mut data, ranked(5, "x", "y"));
    assert_eq!(data.iter().map(|r| r.rank).collect::<Vec<u64>>(), vec![1, 3, 5]);
    assert_eq!(data[2].bigram.left, "c");
}

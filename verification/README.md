# nai_tokenizer

A byte-pair-encoding tokenizer for the vocabularies of NovelAI and GPT-2
style models, written in Verus: its splitting, merging, byte handling,
encoding and decoding are proved against contracts.

The tokenizer is `Send`. Its tables live in `ahash` and `indexmap` maps,
whose hashers are seeded per process; no result depends on that seed: two
tokenizers built from the same inputs give the same answers
(`tables::lemma_same_inputs_same_results`).

## Layout

- `src/text.rs`: characters and strings, hexadecimal and decimal numbers.
- `src/collections.rs`: the `ahash` and `indexmap` maps the tables live in,
  with the contracts of the methods that are called.
- `src/bytes.rs`: the table between the 256 bytes and their characters.
- `src/trie.rs`: the prefix tree of special tokens.
- `src/split.rs`: splitting text into words around special tokens, with
  the pattern from `fancy_regex`.
- `src/bpe.rs`: byte-pair merging and the ids of the merged symbols.
- `src/tokenizer.rs`: the tokenizer: building it, encoding, decoding, the
  unicode-trim table, and searching the vocabulary.
- `src/walk_check.rs`: deciding whether splitting a text ends, for the
  checked `encode_checked`.
- `src/roundtrip.rs`: decoding gives back what was encoded.
- `src/tables.rs`: the tables that building makes, and results that do not
  depend on hash seeds.
- `src/special_laws.rs`: encoding around a special token.
- `app/lib.rs`: loading a tokenizer from its JSON file, and calls that
  panic where the tokenizer has no answer.
- `tests/`: tests on small vocabularies.

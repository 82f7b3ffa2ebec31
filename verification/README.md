# piecer

A tokenizer over Unicode codepoints with byte fallback and optional BPE
merges, verified with Verus.

The vocabulary always starts with the 256 byte tokens and the word-start
marker `▁`; training adds special tokens, the multi-byte characters of the
training text, and merges until the vocabulary holds
`257 + special_tokens.len() + n` entries. Encoding normalizes the text, cuts
it into segments (the chunks and the text between them), and finds the
leftmost-longest entries of the vocabulary in the UTF-8 bytes of each
segment, so any character outside the vocabulary falls back to its byte
tokens; decoding reassembles valid UTF-8 and shows other
bytes as `<xx>`.

## Layout

- `src/prepare.rs`: `normalize` / `denormalize` (the word-start marker), the
  chunking of text, and functions that test the premises of the round trip.
- `src/tokenizer.rs`: the `Tokenizer` type, its type invariant, encoding,
  decoding, and loading a saved vocabulary (`from_vocabulary`,
  `learned_vocabulary`).
- `src/tokenizer/automaton.rs`: the `daachorse` matcher and a specification
  of leftmost-longest matching.
- `src/tokenizer/round_trip.rs`: the proof that decoding inverts encoding.
- `src/tokenizer/train.rs`, `arena_list.rs`, `pair_queue.rs`, `utils.rs`,
  `alphabet.rs`: training, with its merges specified step by step
  (`learned_merges`, `train_run`).
- `app/`: reading and writing vocabulary files as JSON (`serde_json`).

## What is proved

- The tokens of `encode(s)` decode to the normal form of `s`, whatever the
  vocabulary (`lemma_round_trip`), and `decode(encode(s)) == s` for every
  `restorable` text (`lemma_decode_encode_restores`). The premise that std
  classifies a space, a hyphen and the marker as neither letters nor digits
  rests on character classes that are named rather than spelled out;
  `classifications_hold` and `is_restorable` test the premises, and
  `Tokenizer::round_trips` tests them and then gives the guarantee.
- Byte fallback: the byte tokens of any text decode to it
  (`lemma_byte_tokens_decode`); two token lists decode to their two texts
  one after the other when the second is empty or begins with a token shown
  by its string or with a byte that can begin a character
  (`lemma_decode_concat`); `str_to_token` finds exactly the tokens shown by
  their own string (`lemma_str_to_token_exact`).
- `denormalize(normalize(s)) == s` on restorable texts, and `normalize` is
  idempotent on normal forms that do not end in a space or marker.
- Training merges, at each step, the pair whose (count, pair) is greatest in
  its queue, with counts summed over chunk occurrences, until the limit, a
  full token type, or an empty queue.
- Loading what was saved succeeds and gives the same vocabulary, so the
  loaded tokenizer encodes and decodes as the saved one
  (`lemma_saved_vocabulary_loads`, `lemma_saved_vocabulary_reloads`);
  whether the matcher builds is named (`ac_builds`), and a saved tokenizer's
  vocabulary always builds one.
- Chunks never mix whitespace with other characters.

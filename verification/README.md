# cs336_rs

A byte-pair-encoding (BPE) tokenizer and trainer, written in Verus: each function
of the library carries a `requires`/`ensures` contract, and Verus proves the
code against it.

## Layout

- `src/` — the verified library.
  - `encode`, `common`: the GPT-2 byte/character mapping and its inverse.
  - `file`: reading and writing vocabulary and merge lists.
  - `split`: chunk boundaries at special tokens, and the pieces between them.
  - `words`: counting how often each word of a corpus occurs.
  - `pairs`, `training`, `utils`: pair counting, merging and the training loop,
    with a mathematical model of a training run and the laws it obeys.
  - `tokenizer`, `roundtrip`: loading a tokenizer, encoding and decoding, and
    the proof that decoding an encoding gives the content back.
  - `hex`, `error`, `regex`: hex output, error types and their messages.
- `tests/` — tests of the library on concrete values.
- `app/` — the command-line programs: argument handling, file I/O, threads and
  the PCRE2 pattern engine, around the library.

# axmzip

Compression of files and folders by *axioms*: byte patterns that are worth a rule of
their own, and compounds of earlier axioms. The library is written in Verus: its
functions have contracts, and the contracts are proved.

## How a file is compressed

1. One of several reversible delta filters is applied (`filter`).
2. Patterns of 2 to 64 bytes that recur and save space become axioms, each stored as
   the cheapest rule that generates it: raw bytes, a constant, an arithmetic
   progression, an alternation or a period (`patterns`, `dfa`, `library`).
3. The data become a sequence of axioms, the longest match first (`encode`).
4. Pairs that occur more than five times become compounds, in up to twelve passes
   (`compound`).
5. Axioms that the sequence does not need are dropped, and the rest numbered anew
   (`prune`).
6. Library and sequence are written as an inner stream (`inner`, `varint`), `stream`
   being the way there and back.

`container` wraps the stream with a header (checksum, file name, mode). Data made of
records of a fixed size are also tried with the differences between records
(`stride`), and lossy compression rounds each byte first (`quantize`). `archive` packs
the files of a folder. `browser` and `options` hold what a window and a command line
decide.

## What is proved

* What is compressed without loss is given back, and so is the file name; with loss,
  the rounded bytes are (`law_file_round_trip`, `law_lossless_archive_round_trip`).
* No byte moves by more than half a step (`law_quantized_near`), nor by more than the
  settings promise (`law_band_kept`).
* Each axiom of the library that a stream is made from stands for the bytes it was
  registered with, at every step (`law_register`, `law_encoded`, `law_passes`,
  `law_prune_keeps_meaning`). Pruning any library keeps what each member of the
  sequence expands to (`law_prune_keeps_each`), and drops all that is not needed
  (`law_prune_leaves_no_unused`).
* The points of progress are told, each step and its end, and in a folder the end of
  each file's share, in proportion to the sizes (`compress`, `compress_archive`).
* No rule that generates a pattern is cheaper than the one it is stored as, but for
  alternations of odd length and periods above 32, which are not looked for
  (`law_inferred_cheapest`).
* Reading never fails but with one of the errors that the contracts name, on any input.
* Trying strides never makes a file longer (`law_never_longer_than_plain`), and where
  nothing recurs no pattern is claimed (`law_nothing_recurs`).

The round trips ask that the axioms can be numbered with 32 bits; `fits` says so, and
`law_moderate_data_fit` shows that it holds for all data of up to sixty million bytes.

## What is trusted

The contracts of `md5` (`digest`) and of three functions of the standard library that
read bytes as text and turn text into lower case (`text`).

## Scores

Which filter and which stride is best is decided by Shannon entropy, a floating-point
number. The library takes the entropies as scores, integers in the order of the
entropies; `app/measure.rs` computes them. The scores decide how small a file becomes,
never what comes back.

## Layout

* `src/` – the library
* `tests/` – its tests
* `app/` – the program: command line and window

# rp

RePair grammar compression, verified with Verus.

RePair replaces, round after round, the most frequent pair of adjacent
symbols of a text by a new symbol, and records the pair as a rule. The
result is a straight-line grammar: terminals (the distinct bytes), binary
rules, and a start sequence that derives the text.

## Layout

- `src/module/comp.rs`: the grammar construction, specified as a run of
  rounds (`repair_grammar`) and proved to derive its input.
- `src/module/cfg.rs`: grammars, their expansion (`derive` follows rules
  that refer to later rules too, as long as no cycle is met), and the
  post-order partial parse tree of a grammar (`to_poppt`).
- `src/module/poppt.rs`: reading such a tree back into a grammar.
- `src/module/encode/`: the bit encodings of grammars (`u32bits`, the
  fixed-length `fble`, `sorting`) and the rule streams they share.
- `src/gamma.rs`, `src/maxinc.rs`, `src/poppt.rs`: encodings of pair
  grammars. Their writers and expanders accept rules that refer to later
  rules, as long as the derivation of every sequence symbol ends.
- `src/ds.rs`: the symbol array and the frequency lists, the data
  structures that an incremental RePair keeps, with their laws.
  `compression` itself counts the pairs afresh in every round.
- `src/bits.rs`: bit sequences (`bit_vec::BitVec`) and fixed-width fields.
- `app/`: the command-line program (file I/O, arguments, and the number
  codes of the `strlib` crate).
- `tests/`: tests of the library on concrete values.

The laws are proof functions named `lemma_*_roundtrip`,
`lemma_repair_lossless`, `lemma_repair_no_frequent_pair`,
`lemma_inline_rule`, `lemma_wf_derives`, `lemma_tree_balance`, `lemma_tree_keeps_terminals`,
`lemma_adjacent_pair`, the frequency-list laws `lemma_enqueue_spells`,
`lemma_dequeue_spells`, `lemma_create_spells` and `lemma_enqueue_dequeue`,
and the layout lemmas next to each encoding.

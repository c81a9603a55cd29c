# topk_pruning

Top-k retrieval with dynamic pruning, verified with Verus, and the framing of columns on disk.

A query is a set of terms. Each term has a posting list: ascending documents, and the score that
the term gives to each. The library finds the best `k` documents of a segment without scoring all
of them, and proves that it finds the same ones as a scan that does.

- `src/pruning.rs` states which documents a run may skip, and what follows.
- `src/block_wand.rs`, `src/single_scorer.rs`: pruning by bounds on scores, for several terms and
  for one (state of the loop in `src/wand_invariant.rs` and `src/scorer_set.rs`).
- `src/idf_pruning.rs`: pruning by intersection where terms count for their weight alone. Its two
  phases are `src/idf_union.rs` and `src/idf_intersection.rs`; `src/idf_counts.rs` and
  `src/idf_seeks.rs` say how many documents each of them visits, and how often it moves its cursors
  (lists, cursors, bounds and laws in the other `src/idf_*.rs`).
- `src/demotion.rs`: taking the lightest items out of a list, in a fixed order.
- `src/top_n.rs`, `src/segment.rs`, `src/sort_by_score.rs`: collecting the best documents of
  segments, with a threshold that segments share. `src/index_laws.rs` states what that gives over
  all segments.
- `src/column.rs`: the layout of a column, and of a column of strings with its dictionary.
- `app/`: floating-point scores, closures, threads and writers around the library.

Scores are integers in fixed-point units, so that sums of scores are exact. The unit is the
caller's choice.

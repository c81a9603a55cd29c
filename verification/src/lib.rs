//! Top-k retrieval with dynamic pruning, and the framing of columns on disk.
//!
//! Documents are walked in ascending order, and those that cannot be among the best are skipped.
//! [`pruning`] says what that means: which documents may be skipped, and which calls a run makes.
//!
//! - [`block_wand`] and [`single_scorer`] prune by bounds on the scores of terms and of blocks of
//!   their postings.
//! - [`idf_pruning`] prunes by intersection, where terms count for their weight alone.
//! - [`sort_by_score`] collects the best documents of segments with either of them, and
//!   [`index_laws`] says what the results of all segments hold.
//! - [`column`] lays out columns in bytes.
//!
//! What all of it comes to is stated in plain terms, of what functions are given and what they return:
//! [`plain_laws`] of postings and cursors, [`run_laws`], [`union_laws`] and [`intersection_laws`] of the
//! documents that are handed over and evaluated, [`list_laws`] of how terms are divided,
//! [`collect_laws`] of results, and [`column_laws`] of bytes.
pub mod block_wand;
pub mod collect_laws;
pub mod column;
pub mod column_laws;
pub mod demotion;
pub mod idf_align;
pub mod idf_bootstrap;
pub mod idf_counts;
pub mod idf_intersection;
pub mod idf_invariant;
pub mod idf_laws;
pub mod idf_lists;
pub mod idf_pruning;
pub mod idf_ranks;
pub mod idf_seeks;
pub mod idf_stats;
pub mod idf_steps;
pub mod idf_terms;
pub mod idf_union;
pub mod idf_walk;
pub mod index_laws;
pub mod intersection_laws;
pub mod list_laws;
pub mod plain_laws;
pub mod pruning;
pub mod run_laws;
pub mod scorer_set;
pub mod segment;
pub mod single_scorer;
pub mod sort_by_score;
pub mod sorting;
pub mod sums;
pub mod term_scorer;
pub mod top_n;
pub mod types;
pub mod union_laws;
pub mod wand_invariant;

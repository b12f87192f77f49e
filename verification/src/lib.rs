//! Compact, transparent artifacts of every crate name on crates.io, for
//! typeahead and default-version lookup.
//!
//! Artifacts are zstd-compressed TSV, one crate per line, sorted by the
//! crate's *folded* name: ASCII-lowercased, with `-` and `_` treated as the
//! same character (see [`normalize`]). Names are stored as spelled; only the
//! ordering is folded. The reader is sans-io: hand it bytes you fetched
//! however you like.
//!
//! The artifacts themselves are written by [`assemble`] from the tables of a
//! crates.io database dump, which the caller reads.
mod builder;
mod decode;
mod format;
mod order;
mod rank;
mod read;
mod text;
mod tsv;

pub use builder::{
    assemble, column_index, crate_row, decimal, lemma_name_byte_chars, lemma_rank_field_reads_back, lemma_name_byte_folds,
    lemma_rendered_entries_from_default_versions, lemma_rows_without_default_version,
    written_for_row, description_line, description_lines, descriptions_fit_lines,
    downloads_of, entry_lines, field_text, first_missing, folded_names_distinct, is_crate_name, is_name_byte,
    lemma_description_line_reads_back, lemma_names_line_reads_back, lemma_reader_accepts_rendered,
    lemma_reader_accepts_rendered_descriptions, lemma_rendered_descriptions_read_back,
    lemma_rendered_names_read_back, lemma_split_lines_append, line_text, names_line, render,
    rendered_count, rendered_description_pairs, rendered_descriptions, rendered_entries,
    rendered_names, row_key, row_name, rows_fit_fields, sort_by_name, sorted_by_name, version_of,
    BuildOutput, ZSTD_LEVEL,
};
pub use decode::{zstd_decoded, zstd_encoded};
pub use format::{
    flatten_whitespace, is_ascii_white_space, join_words, lemma_flattened_is_single_spaced,
    normalize, single_spaced, white_space_len, words, DESCRIPTIONS_FILE_V1, DESCRIPTIONS_FILE_V2, DESCRIPTIONS_URL_V2, NAMES_FILE_V1,
    NAMES_FILE_V2, NAMES_URL_V2,
};
pub use order::{
    first_difference_below, fold, fold_byte, lemma_fold_byte_same_char, lemma_fold_idempotent,
    lemma_fold_same_name, lemma_lex_lt_first_difference, lemma_lex_lt_single, lex_lt, same_name_char,
    starts_with,
};
pub use rank::{
    downloads_plus_one, exp2, floor_log2, lemma_rank_bounds, lemma_rank_doublings,
    lemma_rank_monotonic, pow8,
    rank_from_downloads, rank_of,
};
pub use read::{
    decimal_text, distinct_names, lemma_decimal_text_reads_back, lemma_prefix_entries_distinct, lemma_typeahead_all,
    lemma_typeahead_limits, lemma_typeahead_order, lemma_descriptions_sorted_unique, lemma_entry_name_is_key, lemma_names_all_entries,
    lemma_names_sorted_unique, lemma_one_line_per_key, lemma_prefix_queries_agree, bytes_rejection, compressed_rejection, entry_of, is_top, pair_views, prefix_entries,
    ranked_before, text_rejection, views, CrateNames, Descriptions, Entry, Error, Rejection,
};
pub use tsv::{
    count_below, description_pairs, first_field, key_of, keys_of, parse_entry, parse_rank,
    parse_u64, parse_u64_field, split_fields, split_lines, split_once_tab, strictly_sorted, EntryView,
};

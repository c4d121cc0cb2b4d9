//! Builds a "common word" blacklist: documents are cleaned of markup,
//! tokenized into words, and the words of the reference document that
//! recur across enough documents are kept, case-insensitively deduplicated.

pub mod bytes;
pub mod clean;
pub mod dedup;
pub mod laws;
pub mod lines;
pub mod matcher;
pub mod pipeline;
pub mod ratio;
pub mod tokenize;

pub use bytes::lower_byte;
pub use clean::{clean_document, remove_html_nodes, remove_html_text, remove_numbers,
    remove_scripts, remove_style};
pub use dedup::dedup_case_insensitive;
pub use laws::{lemma_clean_idempotent_on_clean, lemma_dedup_no_duplicates,
    lemma_script_block_removed, lemma_tokens_longer_than_four};
pub use lines::{split_lines, trim_bytes};
pub use matcher::{common_words, list_contains_ci, BlacklistError};
pub use pipeline::{build_blacklist, is_success_status};
pub use ratio::{parse_ratio, Ratio};
pub use tokenize::extract_words;

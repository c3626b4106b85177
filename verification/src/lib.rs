//! Local media-tracking backend: a durable keyed record store over an
//! embedded relational database, an append-only flat log of user actions,
//! and the pure aggregation and validation logic around them.
mod database;
mod errors;
mod log;
mod models;
mod stats;

pub use database::Database;
pub use database::apply_batch;
pub use database::views_of;
pub use database::lemma_upsert_idempotent;
pub use database::lemma_upsert_overwrite;
pub use database::lemma_apply_batch_frame;
pub use database::lemma_apply_batch_covers;
pub use database::lemma_batch_disjoint_no_lost_updates;
pub use errors::StoreError;
pub use log::append_base;
pub use log::append_rows;
pub use log::clear_content;
pub use log::data_lines;
pub use log::delete_last_match;
pub use log::header_line;
pub use log::header_text;
pub use log::last_match_idx;
pub use log::lemma_delete_reload;
pub use log::lemma_header_exactly_once;
pub use log::lemma_load_after_append;
pub use log::lemma_load_rendered;
pub use log::lemma_parse_render_row;
pub use log::lemma_render_entries_concat;
pub use log::lemma_parsed_records_valid;
pub use log::load_all;
pub use log::log_view;
pub use log::log_views;
pub use log::parse_row;
pub use log::parsed_records;
pub use log::remove_last_match;
pub use log::render_entries;
pub use log::render_entry;
pub use log::row_body;
pub use log::skipped_count;
pub use log::split_on;
pub use log::valid_log_entry;
pub use stats::AnimeStats;
pub use stats::compute_stats;
pub use stats::count_status;
pub use stats::lemma_counts_bounded;
pub use models::RecordView;
pub use models::UserAnimeData;
pub use models::bool_from_python_string;
pub use models::is_valid_status;
pub use models::str_eq;
pub use models::valid_status;

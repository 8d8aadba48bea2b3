//! Last-commit attribution for directory listings.
//!
//! Walking a repository's history newest commit first, each commit
//! contributes (path component, attribution) facts for the directory
//! being listed; a first-write-wins fold turns the fact stream into one
//! attribution per component — the most recent commit that touched it.
//! The resolved mapping is restricted to the entries actually on disk and
//! rendered as rows ordered directories first, each group sorted by name,
//! with the commit's age bucketed into a human-readable phrase.

mod history;
mod model;
mod paths;
mod render;
mod resolve;
mod sorting;

pub use model::FileType;
pub use model::LastCommit;
pub use model::LastCommitView;
pub use model::Row;
pub use model::RowView;
pub use model::Theme;
pub use model::get_theme;
pub use model::spec_get_theme;

pub use paths::classify_delta;
pub use paths::delta_fact;
pub use paths::dir_components;
pub use paths::fact_view;
pub use paths::lemma_fact_component_no_slash;
pub use paths::no_slash;
pub use paths::split_path;
pub use paths::split_str;

pub use history::ChangesView;
pub use history::CommitChanges;
pub use history::CommitHandling;
pub use history::CommitRecord;
pub use history::CommitView;
pub use history::TreeEntry;
pub use history::commit_facts;
pub use history::commit_handling;
pub use history::facts_view;
pub use history::lemma_changed_facts_components;
pub use history::lemma_facts_carry_commit;
pub use history::spec_commit_facts;
pub use history::spec_commit_handling;
pub use history::spec_initial_facts;
pub use history::spec_ordinary_facts;

pub use resolve::AttributionMap;
pub use resolve::first_key_index;
pub use resolve::fold_facts;
pub use resolve::has_key;
pub use resolve::insert_fact;
pub use resolve::keys_distinct;
pub use resolve::lemma_first_write_wins;
pub use resolve::lemma_merge_commits_ignored;
pub use resolve::lemma_resolution_idempotent;
pub use resolve::lemma_resolved_component_unique;
pub use resolve::lemma_resolved_iff_emitted;
pub use resolve::lookup;
pub use resolve::resolve_from;
pub use resolve::resolve_history;
pub use resolve::sort_file;
pub use resolve::spec_filter_live;
pub use resolve::spec_listing;
pub use resolve::spec_resolve;
pub use resolve::spec_row;
pub use resolve::spec_sort_file;

pub use sorting::insort;
pub use sorting::lemma_lex_leq_total;
pub use sorting::lemma_lex_leq_trans;
pub use sorting::lemma_spec_sort_rows_sorted;
pub use sorting::lex_le;
pub use sorting::lex_leq;
pub use sorting::rows_sorted;
pub use sorting::rows_view;
pub use sorting::sort_rows;
pub use sorting::spec_sort_rows;

pub use render::age_seconds;
pub use render::duration_to_time_since;
pub use render::spec_age;
pub use render::spec_decimal;
pub use render::spec_time_since;
pub use render::u64_to_string;

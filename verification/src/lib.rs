//! A verified core for a local snapshot of a package registry's metadata.
//!
//! Records are parsed from paginated registry responses, normalized
//! (lower-cased name and description, entries without a version discarded),
//! aggregated into a database, and queried with case-insensitive multi-term
//! substring search. A blacklist of names is kept as an ordered,
//! duplicate-free list with a plain-text rendering.

mod blacklist;
mod page;
mod record;
mod store;
mod text;

pub use blacklist::add_spec;
pub use blacklist::add_to_black_list;
pub use blacklist::black_list_contains;
pub use blacklist::distinct;
pub use blacklist::find_nl;
pub use blacklist::lemma_add_idempotent;
pub use blacklist::lemma_add_keeps_distinct;
pub use blacklist::lemma_lines_of_rendered;
pub use blacklist::line_safe;
pub use blacklist::lines_of;
pub use blacklist::parse_black_list;
pub use blacklist::render_black_list;
pub use blacklist::rendered;
pub use blacklist::str_views;
pub use page::json_accepts;
pub use page::lemma_no_null_version;
pub use page::lemma_single_candidate;
pub use page::normalize_candidates;
pub use page::normalize_spec;
pub use page::normalized;
pub use page::null_sentinel;
pub use page::page_candidates;
pub use page::page_records;
pub use page::parse_page;
pub use page::raw_views;
pub use page::RawCandidate;
pub use page::PAGE_SLOTS;
pub use record::crate_matches;
pub use record::Crate;
pub use record::CrateView;
pub use store::fetched_records;
pub use store::lemma_fetched_records_versioned;
pub use store::lemma_search_describes;
pub use store::lemma_search_no_needles;
pub use store::lemma_clear_forgets;
pub use store::lemma_pushes_lose_nothing;
pub use store::lowered_views;
pub use store::page_ok;
pub use store::pushed_all;
pub use store::search_spec;
pub use store::views_of;
pub use store::Database;
pub use store::PageFetch;
pub use store::RetryBudget;
pub use store::UpdateError;
pub use store::MAX_NET_TRY;
pub use store::PAGE_COUNT;
pub use text::contains_sub;
pub use text::is_substring;
pub use text::lower_of;
pub use text::str_eq;

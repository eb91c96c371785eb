//! The logic of a keyboard launcher: text folding, scoring, ranking, query
//! handling, configuration text, result storage and helper protocols.

pub mod aliases;
pub mod arith;
pub mod breakdown;
pub mod bytes;
pub mod collect;
pub mod debug_search;
pub mod document;
pub mod explanation;
pub mod fuzzy;
pub mod index_roots;
pub mod items;
pub mod keys;
pub mod keyset;
pub mod ordering;
pub mod places;
pub mod presentation;
pub mod query;
pub mod query_rules;
pub mod recent_paths;
pub mod recents;
pub mod refinement;
pub mod result_store;
pub mod results;
pub mod root_ownership;
pub mod scan;
pub mod scan_runs;
pub mod scan_tasks;
pub mod scoring;
pub mod scoring_rules;
pub mod scoring_text;
pub mod search_progress;
pub mod search_roots;
pub mod search_worker;
pub mod settings_model;
pub mod shell;
pub mod shell_context_menu;
pub mod shell_helper;
pub mod startup_options;
pub mod store_builder;
pub mod store_codec;
pub mod store_history;
pub mod store_reader;
pub mod streaming;
pub mod text;
pub mod title;
pub mod types;
pub mod wide;
pub mod wildcard;
pub mod winpath;
pub mod wording;

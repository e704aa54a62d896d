use vstd::prelude::*;

pub mod answer_laws;
pub mod call_laws;
pub mod chunk_laws;
pub mod chunker;
pub mod config;
pub mod content;
pub mod context;
pub mod context_laws;
pub mod cover_laws;
pub mod embed_laws;
pub mod embedder;
pub mod globs;
pub mod hashing;
pub mod ids;
pub mod indexer;
pub mod job_laws;
pub mod jobs;
pub mod json;
pub mod json_text;
pub mod langpacks;
pub mod lines;
pub mod logger;
pub mod node_laws;
pub mod nodes;
pub mod pack_laws;
pub mod parser;
pub mod path_laws;
pub mod paths;
pub mod policy;
pub mod policy_laws;
pub mod protocol;
pub mod query_laws;
pub mod schema;
pub mod schema_laws;
pub mod search;
pub mod search_laws;
pub mod server;
pub mod setting_laws;
pub mod sorting;
pub mod span_laws;
pub mod spans;
pub mod store;
pub mod store_laws;
pub mod syntax;
pub mod text;
pub mod text_laws;
pub mod turn_laws;
pub mod types;
pub mod watch_laws;
pub mod watcher;

pub mod distance;
pub mod encryption;
pub mod engine;
pub mod entities;
pub mod events;
pub mod graph;
pub mod ingestion;
pub mod numparse;
pub mod pattern;
pub mod pipeline;
pub mod ranker;
pub mod search;
pub mod similarity;
pub mod text;
pub mod watcher;

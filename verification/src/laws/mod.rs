//! Laws: what holds of the engines as a whole.

pub mod answers;
pub mod blobs;
pub mod chunks;
pub mod counts;
pub mod documents;
pub mod fingerprint;
pub mod graph;
pub mod index;
pub mod json;
pub mod numbers;
pub mod ranking;
pub mod references;
pub mod reload;
pub mod results;
pub mod rows;
pub mod search;
pub mod segments;
pub mod settings;
pub mod statements;
pub mod storing;
pub mod text;
pub mod ways;

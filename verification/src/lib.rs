//! Clustering and online matching of log messages: the rules that decide
//! which records are looked at, which centroid a message belongs to, and how
//! the centroid set grows.

pub mod batching;
pub mod centroids;
pub mod clustering;
pub mod ingest;
pub mod matching;
pub mod preprocessing;
pub mod records;
pub mod text;

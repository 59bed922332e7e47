//! Tree diffing over a content-addressed object store, with rename and copy
//! tracking on top of the raw change stream.
pub mod bytes;
pub mod hash;
pub mod change;
pub mod error;
pub mod source;
pub mod frame;
pub mod tree;
pub mod rewrites;
pub mod similarity;
pub mod visit;
pub mod order;
pub mod sorting;
pub mod plan;
pub mod tracker;
pub mod pathspec;
pub mod laws;
pub mod cache;
pub mod pipeline;
pub mod platform;
pub mod callback;

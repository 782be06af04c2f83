//! Staging-area coordination for a batch video transcoder: a model of
//! directory trees with the walks that stage, enumerate and clear them,
//! the lock protocol over the shared staging directory, and the
//! per-file transcoder invocation rules.

pub mod cli;
pub mod text;
pub mod tree;
pub mod staging;
pub mod transcode;

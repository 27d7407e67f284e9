//! Read-path core of a log-structured merge storage engine: the binary
//! layout of a sorted block, and a merge of sorted sources.
pub mod block;
pub mod key;
pub mod source;
pub mod merge_model;
mod heap;
pub mod merge_iterator;
pub mod mem_table;


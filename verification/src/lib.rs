//! Verified core of a coding agent's memory system: tokenization, relation
//! classification between memories, recall keyword handling, id validation,
//! history bookkeeping and daemon request predicates.
use vstd::prelude::*;

pub mod text;
pub mod tokenizer;
pub mod jieba;
pub mod runs;
pub mod similarity;
pub mod polarity;
pub mod keyvalue;
pub mod relation;
pub mod ordering;
pub mod entry;
pub mod engine;
pub mod pool;
pub mod paths;
pub mod inject;
pub mod migration;
pub mod session_index;
pub mod storage;
pub mod history;
pub mod dirs;
pub mod daemon;
pub mod lock;

verus! {
} // verus!

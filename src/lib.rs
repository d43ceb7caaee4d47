//! An ordered map from `i64` keys to values, kept as a skip list.
//!
//! Nodes live in an arena and point at one another by index, one forward
//! link per level they take part in. A deleted node's slot goes on a free
//! list and is reused by a later insert; since every operation holds the
//! list exclusively (`&mut self` to change it), no reader can still be
//! walking through a slot when it is reused. The height of each new node is
//! drawn by a [`LevelGenerator`], a geometric distribution truncated at a
//! fixed cap.

mod chain;
mod laws;
mod level;
mod list;
mod node;

pub use laws::{
    insert_all, lemma_delete_after_insert, lemma_distinct_inserts_commute, lemma_find_after_insert,
    lemma_insert_all_keys, lemma_insert_twice,
};
pub use level::{
    level_from_trials, trials_level, LevelGenerator, DEFAULT_DENOMINATOR, DEFAULT_MAX_LEVEL,
    DEFAULT_NUMERATOR,
};
pub use list::{SkipList, SkipListError};
pub use node::Node;

//! A solver for a word-tile game played with 31 kinds of tile: the 26 single
//! letters and 5 digraph tiles that stand for the two-letter sequences CL, ER,
//! IN, QU and TH.  A dictionary is stored in a prefix trie that records every
//! way a word can be laid with single-letter and digraph tiles; a search
//! enumerates the words formable from a hand of tiles; and a composer packs
//! found words into non-overlapping plays and ranks them.

pub mod tiles;
pub mod trie;
pub mod solver;

//! Compact count tables for an n-gram language model: frequency ranking of
//! count values per order, a compressed rank array and a token vocabulary.

mod compact;
pub mod builder;
pub mod counts;
pub mod rank_array;
pub mod vocabulary;

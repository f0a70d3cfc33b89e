//! Busy-beaver search over tiny programs: enumerators, bounded interpreters
//! and an aggregator of the outcomes.
pub mod aggregate;
pub mod arith;
pub mod bf_agree;
pub mod bf_count;
pub mod bf_index;
pub mod bf_num0;
pub mod bf_successor;
pub mod bounded;
pub mod brainfuck;
pub mod def;
pub mod exactly_once;
pub mod loops;
pub mod search;
pub mod stat;
pub mod text;
pub mod turing_agree;
pub mod turing_count;

//! Combinations in cool-lex order.
//!
//! The k-subsets of an n-set are generated one after another as strings of
//! `n` markers of which `k` are selected. Each string is reached from the one
//! before it by moving a single marker to the front.
//!
//! * [`binomial`] defines the binomial coefficient that counts the subsets.
//! * [`bits`] defines the successor rule on marker strings.
//! * [`order`] defines cool-lex order as a whole and proves what holds of it.
//! * [`linked_list`] is the generator itself, a chain of markers.

pub mod binomial;
pub mod bits;
pub mod order;
pub mod linked_list;

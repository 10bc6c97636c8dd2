//! Linked lists with verified contracts: a singly-linked stack, a
//! singly-linked queue, and a doubly-linked deque whose nodes live in an
//! index-addressed arena.
//!
//! Every list is viewed as the sequence of its elements, and each
//! operation's contract says what it returns and what it does to that
//! sequence.

pub mod second;
pub mod fifth;
pub mod fourth;
pub mod laws;

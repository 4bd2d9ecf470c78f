//! A single node of a toy distributed ledger: an append-only chain of
//! blocks, a pool of pending transactions, a peer registry, a
//! proof-of-work puzzle, and a longest-chain consensus resolver.
pub mod block;
pub mod consensus;
pub mod errors;
pub mod node;
pub mod payload;
pub mod pow;

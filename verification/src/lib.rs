//! A blockchain with one chain of proposer blocks and several chains of voter blocks.
//!
//! Proposer blocks refer to transaction blocks and to each other. The voter chains vote on every
//! level of proposer blocks: the block with the most votes on the longest voter chains leads its
//! level. The leaders, from level 0 up to the first level without one, give the ledger: each
//! confirms the blocks that it refers to, directly or through others, and that no lower level
//! confirms.
//!
//! What the chain keeps in memory is a [`chain::BlockChain`]. Everything else is in a database
//! outside this crate. Operations take a function that reads from it and hand back the changes
//! to be made to it; [`store`] says what the columns of the database hold, [`change`] how changes
//! are written, [`codec`] how values are encoded, and [`merge`] how columns combine merged values.
//!
//! - [`chain`]: the start of the chain, and the blocks that enter it.
//! - [`votes`]: how votes change when a voter chain switches to another tip.
//! - [`ledger`]: counting votes, electing leaders and ordering the ledger.
//! - [`queries`], [`dump`]: questions about the chain, and a picture of it.
//!
//! What holds of a chain at all times is in [`consistency`]. It holds at the [`start`], a block
//! that enters keeps it ([`insertion`]), and so does an update of the ledger ([`laws`], which
//! builds on [`tally`], [`election`] and [`ordering`]). [`query_laws`] and [`dump_laws`] say what
//! follows for the answers that a chain gives.
//!
//! What an operation does is also said in terms of the records alone: which votes a switch of a
//! voter chain changes and which are counted ([`vote_laws`]), what an update changes and reports
//! ([`update_laws`]), in which order a level of the ledger has its blocks ([`traversal`]), how
//! lists are put together level by level and block by block ([`flat`]), and what the picture shows
//! ([`picture_laws`], [`graph_laws`], [`edge_laws`]).
//!
//! A chain need not be consistent as a whole for all of its properties: [`invariants`] has them one
//! by one, each under what it needs, [`whole`] those that questions about the chain need, and
//! [`reach`] says what the ledger holds in terms of references. [`runs`] are blocks and updates in
//! any order, and [`reached`] says what holds of every chain that a run from the genesis blocks
//! leads to.

pub mod block;
pub mod chain;
pub mod change;
pub mod codec;
pub mod consistency;
pub mod dump;
pub mod dump_laws;
pub mod edge_laws;
pub mod election;
pub mod flat;
pub mod graph_laws;
pub mod insertion;
pub mod invariants;
pub mod laws;
pub mod ledger;
pub mod merge;
pub mod ordering;
pub mod picture_laws;
pub mod queries;
pub mod query_laws;
pub mod reach;
pub mod reached;
pub mod runs;
pub mod sets;
pub mod start;
pub mod store;
pub mod tally;
pub mod traversal;
pub mod update_laws;
pub mod vote_laws;
pub mod votes;
pub mod whole;

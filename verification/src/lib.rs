//! A leader-based, DAG-structured BFT consensus core of the Bullshark family,
//! in a dense mode (all-to-all parent links under Bracha reliable broadcast)
//! and a sparse mode (verifiably sampled parent links).
//!
//! Every function of this crate is verified against its contract; the calls
//! into cryptographic and encoding crates sit behind the items of [`crypto`]
//! and [`codec`], whose contracts are taken on trust.
//!
//! From the leaves up: [`vertex`] and its content hash; [`dag`], the store,
//! with [`reach`] for what a search of it finds and [`order`] for the order
//! of hashes; [`multisig`] and [`random`] for the sample proof and the
//! sample; [`rules`] and [`engine`] for anchors, validation and vertex
//! creation; [`commit`] for the commit rule; [`rbc`] for the state of
//! reliable broadcast; [`work`] for the round engine, whose steps [`run`]
//! states as relations; [`bullshark`] and [`sparse_bullshark`] for the node
//! in either mode; [`frame`] for the wire; [`initializer`],
//! [`environment`], [`transaction`] and [`vrf`] beside them; and [`laws`]
//! for what holds of all of it.

pub mod bullshark;
pub mod bytes;
pub mod codec;
pub mod commit;
pub mod crypto;
pub mod dag;
pub mod engine;
pub mod environment;
pub mod frame;
pub mod initializer;
pub mod laws;
pub mod message;
pub mod multisig;
pub mod order;
pub mod random;
pub mod rbc;
pub mod reach;
pub mod rules;
pub mod run;
pub mod sparse_bullshark;
pub mod transaction;
pub mod vertex;
pub mod vrf;
pub mod work;

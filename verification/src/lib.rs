//! A survey of a repository: what its history says of each file, where sets of
//! peer files disagree, who the people behind the commits are, and how all of
//! it reaches a client.
//!
//! - The walk: [`lineage`], [`blobs`] and [`replay`] turn commits and their
//!   changes into a series per file; [`graph`], [`brandes`], [`walks`] and
//!   [`source_pass`] measure which files change together.
//! - The summary: [`signal`], [`rows`], [`vertices`], [`events`] and
//!   [`handles`] are put together in [`summary`]; [`evidence`] and [`explain`]
//!   lead from a file back to its commits; [`kernel`] scores rows anew.
//! - Peers: [`fleets`], [`wtd`] and [`divergence`].
//! - People: [`addresses`], [`people`] and [`enrich`].
//! - The client: [`phases`] and [`session`].
//! - Tools: [`text`], [`order`], [`sorted_map`], [`ranking`] and [`ieee`].
//!
//! Numbers in floating point are carried as the bits of their double-precision
//! form. Nothing here computes with them; they are compared through [`ieee`].

pub mod addresses;
pub mod blobs;
pub mod brandes;
pub mod divergence;
pub mod enrich;
pub mod events;
pub mod evidence;
pub mod explain;
pub mod fleets;
pub mod graph;
pub mod handles;
pub mod ieee;
pub mod kernel;
pub mod lineage;
pub mod order;
pub mod people;
pub mod phases;
pub mod ranking;
pub mod replay;
pub mod rows;
pub mod session;
pub mod signal;
pub mod sorted_map;
pub mod source_pass;
pub mod summary;
pub mod text;
pub mod vertices;
pub mod walks;
pub mod wtd;

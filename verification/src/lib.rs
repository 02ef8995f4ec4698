//! A similarity graph of video games, with its proofs.
//!
//! Games are the nodes of an undirected graph. Records of games are
//! inserted one at a time, and each is joined to every game inserted before
//! that has the same genre or the same publisher. The finished graph
//! answers for hop distances from a game, for the distribution of degrees
//! and for the degree of every game.
//!
//! - [`record`]: game records and the table rows they are read from;
//! - [`graph`]: the graph itself, how it grows and what it answers;
//! - [`model`]: the mathematical graph that contracts speak of, and what
//!   holds of every graph that insertion builds;
//! - [`walks`]: walks, reachability and distance in a graph;
//! - [`degrees`]: degree histograms and tables;
//! - [`search`]: breadth-first search over adjacency lists.

#![allow(non_snake_case)]

pub mod degrees;
pub mod graph;
pub mod model;
pub mod record;
pub mod search;
pub mod walks;

//! Abelian sandpile simulation on lattices: a weighted graph with a sink,
//! a relaxation engine that topples active nodes from a work-list, and
//! builders for regular and uniform tilings.

pub mod sand_graph;
pub mod embedding;
pub mod model;
pub mod controller;
pub mod region;
pub mod lattice;
pub mod abelian;

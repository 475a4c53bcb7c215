//! Verified core of the verification-entropy toolkit: the integer and
//! combinatorial logic behind the persistence diagram (union-find and
//! Kruskal-style merging of components) and the module bookkeeping of
//! entropy-flow networks.

pub mod union_find;
pub mod order;
pub mod persistence;
pub mod flow;

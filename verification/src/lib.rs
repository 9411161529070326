//! Interprocedural information-flow analysis over procedure summaries.
//!
//! The library composes per-procedure dataflow summaries into a graph over
//! call sites, inlines callee graphs into their callers, prunes edges that no
//! chain of place equations supports, and projects the result into a map from
//! each call site to the call sites its arguments depend on.
//!
//! The modules, from the leaves up:
//!
//! - [`global_location`]: interned locations that name a point together with
//!   the chain of calls that leads to it; [`edge`], [`graph`]: flow graphs and
//!   the weights of their edges; [`algebra`]: equations between places and
//!   the search through them; [`assoc`], [`utils`], [`search`], [`hashing`]:
//!   containers, graph search and hashes.
//! - [`regal`], [`mir`]: what the analysis is given, the summary and the body
//!   of each procedure; [`args`]: its switches.
//! - [`inline`], [`splice`], [`reduce`], [`prune`], [`inliner`], [`memo`]:
//!   the graph of a procedure, inlining of callees, removal of calls and of
//!   flows, and the inliner with its cache; [`flows`], [`serializers`]: the
//!   call-only flow and its form for storing; [`traverse`], [`count`]:
//!   queries on graphs.
//! - [`dep_matrix`], [`translate`], [`ana`], [`call_only`]: the flow of a
//!   procedure at the level of statements, made from the dependency matrices
//!   of a dataflow analysis, and its reduction to calls.
//! - [`laws`], [`typing`], [`sites`], [`progress`], [`opaque`]: what holds
//!   of the analysis as a whole.

pub mod algebra;
pub mod ana;
pub mod args;
pub mod assoc;
pub mod call_only;
pub mod count;
pub mod dep_matrix;
pub mod edge;
pub mod flows;
pub mod global_location;
pub mod graph;
pub mod hashing;
pub mod inline;
pub mod inliner;
pub mod laws;
pub mod memo;
pub mod mir;
pub mod opaque;
pub mod progress;
pub mod prune;
pub mod reduce;
pub mod regal;
pub mod search;
pub mod serializers;
pub mod sites;
pub mod splice;
pub mod translate;
pub mod traverse;
pub mod typing;
pub mod utils;

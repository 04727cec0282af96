//! Arbitrage detection over a graph of token types and swap routes.
//!
//! Tokens are nodes, every swap route offered by a liquidity venue is a
//! weighted directed edge, and a closed walk of negative total weight is a
//! profitable round trip. The crate builds the graph from discovery answers,
//! runs Bellman-Ford relaxation on it and turns the cycles that the
//! predecessor links close into trade paths.

pub mod builder;
pub mod detect;
pub mod discovery;
pub mod finder;
pub mod graph;
pub mod laws;
pub mod network;
pub mod relax;
pub mod report;
pub mod sound;
pub mod types;

pub use builder::{Action, GraphBuilder, Phase};
pub use finder::{BellmanFordPathFinder, SearchError};
pub use graph::ArbitrageGraph;
pub use network::{HopRef, Link};
pub use report::{Args, DisplayPlan, HttpConfig};
pub use types::{Dex, Edge, Node, ObjectId, Path, Route};

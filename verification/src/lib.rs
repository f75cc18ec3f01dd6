//! Verified core of the geometric-memory experiments: tiny graphs, the exact
//! side of their random-walk spectra, and the decisions of the gradient runs.
//!
//! The library holds everything that is decided or counted. Floating-point
//! values pass through it as [`double::Double`], the IEEE 754 binary64 bit
//! pattern, which it orders, classifies and negates exactly; the rounding
//! arithmetic itself is the caller's.

pub mod counting;
pub mod double;
pub mod error;
pub mod graph;
pub mod graph_laws;
pub mod journal;
pub mod logger;
pub mod matrix;
pub mod node2vec;
pub mod numerics;
pub mod output;
pub mod progress;
pub mod ranking;
pub mod settings;
pub mod shells;
pub mod spectral;
pub mod text;
pub mod tinynn;

//! petekTools: scattered-data gridding and geostatistics. This library holds
//! the parts that are not floating point, each with its contract: the formula
//! language front end (lexer, parser, dependency analysis, built-in calls and
//! broadcast rules), the single-file section container (framing, index,
//! partial reads, byte-lossless filter and merge), the integer bookkeeping of
//! the gridding kernels (anchor and free-node numbering, the natural-dip
//! boundary fold, band storage, coincident-sample grouping, control rows), the
//! visiting path of sequential simulation, and the shared vocabulary and
//! error type.

pub mod container;
pub mod error;
pub mod formula;
pub mod gridding;
pub mod interp;
pub mod sampling;
pub mod simulation;
pub mod text;

pub use error::AlgoError;
pub use gridding::{Conditioning, GridMethod, ResampleMethod, VariogramModel};
pub use interp::Interp1dMethod;

//! Global sequence alignment by the Needleman-Wunsch dynamic program,
//! in a full quadratic variant and a banded (k-band) approximation that
//! widens its diagonal band until a heuristic acceptance test passes.

pub mod align;
pub mod laws;
pub mod matrix;
pub mod scoring;
pub mod traceback;

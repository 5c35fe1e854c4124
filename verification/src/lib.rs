//! Bit-packed Monte-Carlo engine for the two-dimensional Ising model.
//!
//! A lattice row packs 128 sites into each `u128`, so that one heat-bath
//! update of a whole word is a handful of boolean operations. The torus is
//! split into four interleaved sub-lattices; a sweep updates them in turn,
//! each against neighbours of other colours only.
//!
//! Everything here is executable Rust with machine-checked contracts. Random
//! masks enter as plain words, files as plain bytes, and the run loop as a
//! step function from events to actions.
//!
//! * [`word`]: the heat-bath rule on one word, and counting sites.
//! * [`line`]: a row of words as a ring of sites: rotation and update.
//! * [`sublat`]: one colour: update against two others, magnetisation,
//!   snapshots.
//! * [`lattice`]: the four colours: passes, sweeps, samples, snapshots.
//! * [`torus`]: the lattice site by site, and what an update means there.
//! * [`mask`]: temperature signatures and the masks drawn under them.
//! * [`rnd`]: random words.
//! * [`bytes`]: words as bytes, in either byte order.
//! * [`driver`]: a run from start to snapshot, one event at a time.
//! * [`blocks`]: the layout of a measurement log for analysis.

pub mod blocks;
pub mod bytes;
pub mod driver;
pub mod lattice;
pub mod line;
pub mod mask;
pub mod rnd;
pub mod sublat;
pub mod torus;
pub mod word;

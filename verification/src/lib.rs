//! Bookkeeping for a population of particles, some of them plants and some
//! of them living cells, with deferred deletion.
pub mod dice;
pub mod population;
pub mod reindex;

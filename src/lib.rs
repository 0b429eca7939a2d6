//! A cache-aware memory scrubber.
//!
//! A scrubber reads every cache line of a set of memory areas so that the
//! hardware's error-correcting code gets a chance to repair single-bit errors
//! before they pile up. It walks all lines that map to one cache set before
//! moving to the next set, so that a partial scrub evicts as little of the
//! cache as possible.
pub mod area_iter;
pub mod autoscrub;
pub mod geometry;
pub mod multi_iter;
pub mod order;
pub mod scrubber;

pub use area_iter::ScrubAreaIterator;
pub use autoscrub::{BaseAutoScrub, BaseAutoScrubDesc};
pub use geometry::{BaseCacheDesc, CacheGeometry, Error, ScrubArea};
pub use multi_iter::MemoryScrubberIterator;
pub use scrubber::MemoryScrubber;

//! Streaming intersection of sorted genomic interval streams.
//!
//! One base stream and any number of other streams, each sorted by
//! chromosome rank, start and stop, are merged in a single forward pass.
//! For every base interval the merge reports the intervals of the other
//! streams that overlap it.

pub mod bed_ex;
pub mod bedder_bed;
pub mod chrom_order;
pub mod heap;
pub mod intersection;
pub mod position;
pub mod text;

//! Lazily grown trees over a bounded range of integer points.
//!
//! Two disciplines share one engine, the canonical decomposition of a range
//! into intervals of the tree:
//!
//! - [`segmentpoint::SegmentPointTree`] combines a value into every point of
//!   a range and reads one point;
//! - [`pointsegment::PointSegmentTree`] combines a value into one point and
//!   reads a range.
//!
//! Both take the combine operator and the default aggregate from the caller.
//! [`pointsum::PointSumTree`] and [`pointmax::PointMaxTree`] are the first
//! discipline with `i64` sums and the ceil cut.

use vstd::prelude::*;

pub mod common;
mod node;
pub mod operator;
pub mod pointmax;
pub mod pointsegment;
pub mod pointsum;
pub mod segmentpoint;
pub mod snapshot;
mod sumtree;

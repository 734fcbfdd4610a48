//! A directory-listing core that collapses runs of sequentially numbered
//! files sharing a stem and extension into single range entries.
//!
//! Names are split into stem, trailing numeral and extension ([`name`]);
//! entries fold into insertion-ordered groups with merged ranges and
//! metadata ([`aggregate`], [`group`], [`meta`]); the grouped result is
//! ordered under a configurable multi-key comparator ([`order`]) and
//! rendered back into compact display segments ([`render`]).

use vstd::prelude::*;

pub mod aggregate;
pub mod group;
pub mod meta;
pub mod name;
pub mod order;
pub mod render;

verus! {

} // verus!

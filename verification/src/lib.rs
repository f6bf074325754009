//! A bounded top-K retention structure: a capacity-bounded, sorted queue that
//! keeps the K best-ranked (lowest-keyed) candidates seen so far.

pub mod queue;

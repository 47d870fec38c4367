//! A min-oriented pairing heap: a heap-ordered multiway tree offering
//! amortized O(1) insertion and peek, and amortized O(log n) removal of the
//! minimum element.

pub mod pairing_heap;

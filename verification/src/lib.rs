//! A static-size worker-pool library and the verified computational cores of
//! the numeric kernels built on top of it.
//!
//! The pool itself coordinates threads, channels and locks; its lifecycle and
//! bookkeeping are captured here as a verified state machine (`pool`), while
//! the thread plumbing lives outside the verified library. The kernels'
//! chunk partitioning (`scatter`), result collection (`gather`), byte
//! frequency counting (`hist`), integer matrices (`matrix`), the small
//! regex state machine (`efsm`), pixel grayscale conversion (`grayscale`)
//! and flag parsing (`args`) are verified in full.

pub mod args;
pub mod efsm;
pub mod gather;
pub mod grayscale;
pub mod hist;
pub mod matrix;
pub mod pool;
pub mod scatter;

//! Converts a line-oriented instrumentation log (timestamped function
//! enter/exit/point events) into a perf-script-like textual call-stack trace.
#![verifier::loop_isolation(false)]

use vstd::prelude::*;

pub mod parse;
pub mod record;
pub mod script;
pub mod text;

verus! {

/// Generic newtype wrapper.
pub struct Wrapper<T>(pub T);

} // verus!

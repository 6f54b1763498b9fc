//! Performance contexts. The underlying engine exposes no perf counters to
//! this layer; the type exists so callers can name it.

use vstd::prelude::*;

verus! {

/// A placeholder perf context; no counters are collected.
pub struct AgatePerfContext;

} // verus!

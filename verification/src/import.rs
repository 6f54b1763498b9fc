//! External-file ingestion options. Ingestion itself is the underlying
//! engine's business; the type exists so callers can name it.

use vstd::prelude::*;

verus! {

/// Options for ingesting an external sorted table.
pub struct AgateIngestExternalFileOptions;

} // verus!

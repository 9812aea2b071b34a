//! Extraction and classification of bibliographic citation keys.
//!
//! The crate scans LaTeX auxiliary files and bibliography logs for citation
//! keys, returns them deduplicated and sorted, guesses the database a key
//! belongs to from its format, and dispatches record fetches to
//! caller-supplied capabilities accordingly.  The parsing, ordering and
//! classification logic is verified; reading input, fetching records over
//! the network and writing output are left to the embedding program.

pub mod classify;
pub mod error;
pub mod extract;
pub mod keyset;
pub mod resolve;

pub use classify::BibCode;
pub use classify::RecId;
pub use classify::Sources;
pub use error::InspirerError;
pub use resolve::Inspirer;
pub use resolve::RecordFetcher;

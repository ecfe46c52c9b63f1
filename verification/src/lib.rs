//! An archive engine for a single-file binary container: a length-framed
//! header describing a tree of files, directories and links, followed by the
//! concatenated bytes of the regular files. Files may optionally be kept out
//! of the body ("unpacked") and per-file SHA-256 digests may be recorded and
//! verified. Everything here works on plain in-memory values; reading and
//! writing real files is left to the embedding application.

pub mod crawl;
pub mod error;
pub mod extract;
pub mod integrity;
pub mod jsonparse;
pub mod laws;
pub mod locate;
pub mod jsontext;
pub mod node;
pub mod numtext;
pub mod pack;
pub mod pickle;
pub mod roundtrip;
pub mod util;

use vstd::prelude::*;

verus! {

} // verus!

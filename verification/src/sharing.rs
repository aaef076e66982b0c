//! How a notebook is held: by one owner, or by many users.

use vstd::prelude::*;

verus! {

/// Marks a notebook that many users share.
///
/// The notebook itself waits for nobody. Every operation that changes a notebook takes
/// the notebook exclusively, so no two of them can overlap, and whoever shares a notebook
/// among threads keeps it behind a read-write lock of their own: held for writing around
/// what places, writes or takes back, held for reading around what only reads. A notebook
/// with one owner has `()` in this place.
#[derive(Clone, Copy, Debug)]
pub struct Public;

} // verus!

//! Region-file decoding and block-colour logic for a world map renderer.

use vstd::prelude::*;

pub mod block;
pub mod metadata;
pub mod nbt;
pub mod region;

verus! {

/// Command line arguments: the save directory to read and the directory
/// the map data goes to.
#[derive(Debug)]
pub struct Args {
    pub input_dir: String,
    pub output_dir: String,
}

} // verus!

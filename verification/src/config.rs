//! Link-time configuration.

use vstd::prelude::*;

verus! {

/// Addresses and alignments that shape the output image.
#[derive(Debug, Clone, Copy)]
pub struct Config {
    /// Where the program should be loaded.
    pub base_addr: u64,
    /// Alignment of segments in the file.
    pub segment_file_align: u64,
    /// Alignment of differently-permissioned segments in memory.
    pub page_size: u64,
}

} // verus!

//! The command-line surface, as plain data.
//!
//! The argument-parsing shell keeps its own derive-bearing copies of these
//! types and converts; the library only needs the parsed values.

use vstd::prelude::*;

verus! {

/// How payload data is, or was, split between containers.
#[derive(Copy, Clone, PartialEq, Eq, Structural)]
pub enum SplitModeEnum {
    /// Round-robin placement: capacity-inefficient, but losing one
    /// container corrupts every Nth byte instead of one contiguous region.
    Scrambled,
    /// Chunked placement, the default: every usable byte of every container
    /// is filled.
    Full,
}

/// One of the three operations the tool performs.
pub enum Commands {
    /// Recover a payload from the containers under `image_dir`.
    Extract {
        /// Directory holding the carrier containers.
        image_dir: String,
        /// Passphrase shared with the embed run.
        passphrase: String,
        /// Where the recovered payload is written.
        output_file: String,
    },
    /// Distribute a payload over the containers under `image_dir`.
    Embed {
        /// Directory holding the carrier containers.
        image_dir: String,
        /// Passphrase handed to every embed call.
        passphrase: String,
        /// The payload to distribute.
        input_file: String,
    },
    /// Report the aggregate capacity of the containers under `image_dir`.
    Capacity {
        /// Directory holding the carrier containers.
        image_dir: String,
    },
}

/// A parsed command line: the operation, and the split mode selecting the
/// placement policy (`Full`, the chunked policy, by default).
pub struct Cli {
    /// The operation to perform.
    pub command: Commands,
    /// The placement policy to split or join with.
    pub split_mode: SplitModeEnum,
}

} // verus!

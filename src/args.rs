//! Values that the command line hands to the server.
use vstd::prelude::*;

verus! {

/// Where the server listens and which save file it uses.
#[derive(Debug, Clone)]
pub struct OpenServer {
    /// Port to open the server on.
    pub open_port: u16,
    /// Save file.
    pub filename: String,
}

} // verus!

//! The viewer's configuration as plain values; file loading happens outside
//! the library.

use vstd::prelude::*;

verus! {

/// Where the viewer listens and which server and addresses it follows.
#[derive(Debug, Clone, Default)]
pub struct GuiConfig {
    pub udp_listen_address: String,
    pub udp_server_address: String,
    pub display_address: Vec<String>,
    pub sample_limit: usize,
}

/// Options given on the command line.
#[derive(Debug, Clone, Default)]
pub struct OtherOpts {
    pub input_file: Option<String>,
}

/// Everything the viewer starts with.
#[derive(Debug, Clone, Default)]
pub struct Flags {
    pub guiconfig: GuiConfig,
    pub otheropts: OtherOpts,
}

} // verus!

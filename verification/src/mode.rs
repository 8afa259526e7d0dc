//! Startup parameters for a server running as master.
use vstd::prelude::*;

verus! {

/// Where the master finds its snapshot file, when both parts are given.
#[derive(Clone, Debug)]
pub struct MasterParams {
    pub dir: Option<String>,
    pub dbfilename: Option<String>,
}

} // verus!

//! The whole configuration file: connections and tasks.
use vstd::prelude::*;

verus! {

/// Everything AutoFilm is configured with.
pub struct Config {
    pub alist: Vec<crate::alist::AlistConfig>,
    pub alist2strm_tasks: Vec<crate::alist2strm::Config>,
    pub ani2alist_tasks: Vec<crate::ani2alist::Config>,
}

} // verus!

//! Ani2Alist task configuration: which anime releases to mirror into AList.
use vstd::prelude::*;

verus! {

/// One Ani2Alist task.
pub struct Config {
    pub id: String,
    pub cron: Option<String>,
    /// The id of the AList connection to upload to.
    pub alist: String,
    pub target_dir: String,
    pub source: SourceConfig,
    pub update: UpdateConfig,
}

/// Where releases are listed.
pub struct SourceConfig {
    pub source_url: String,
    pub rss_url: String,
}

/// Which releases a run picks up.
pub enum UpdateConfig {
    /// The latest releases of the RSS feed.
    Rss,
    /// The releases of one season (the current one where not given).
    Season { year: Option<i32>, month: Option<u32> },
    /// The releases whose folder matches a keyword.
    Keyword { keyword: String },
}

/// The default listing site.
pub fn default_source_url() -> (r: String)
    ensures
        r@ == "https://aniopen.an-i.workers.dev"@,
{
    "https://aniopen.an-i.workers.dev".to_owned()
}

/// The default RSS feed.
pub fn default_rss_url() -> (r: String)
    ensures
        r@ == "https://api.ani.rip/ani-download.xml"@,
{
    "https://api.ani.rip/ani-download.xml".to_owned()
}

impl Default for SourceConfig {
    fn default() -> (r: SourceConfig)
        ensures
            r.source_url@ == "https://aniopen.an-i.workers.dev"@,
            r.rss_url@ == "https://api.ani.rip/ani-download.xml"@,
    {
        SourceConfig { source_url: default_source_url(), rss_url: default_rss_url() }
    }
}

} // verus!

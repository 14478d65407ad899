//! The search result record shared by the indexers, the TUI and downloads.

use vstd::prelude::*;
use crate::util::{build_magnet_link, magnet_link};

verus! {

/// One search result.
#[derive(Debug, Clone)]
pub struct Torrent {
    pub name: String,
    pub info_hash: String,
    pub magnet: Option<String>,
    pub torrent_url: Option<String>,
    pub seeders: u32,
    pub size_bytes: u64,
}

impl Torrent {
    /// The magnet link this torrent is fetched with: its own when it has
    /// one, else the one built from its info hash and name.
    pub open spec fn resolved_magnet_spec(&self) -> Seq<char> {
        match self.magnet {
            Some(m) => m@,
            None => magnet_link(self.info_hash@, self.name@),
        }
    }

    #[must_use]
    pub fn resolved_magnet(&self) -> (m: String)
        ensures
            m@ == self.resolved_magnet_spec(),
    {
        match &self.magnet {
            Some(m) => m.clone(),
            None => build_magnet_link(self.info_hash.as_str(), self.name.as_str()),
        }
    }
}

} // verus!

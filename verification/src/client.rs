//! The client as a whole: the settings it runs with.

use std::sync::Arc;
use vstd::prelude::*;

verus! {

/// Where the client listens for peers and saves downloads.
#[derive(Debug)]
pub struct Config {
    /// The address to listen on, as an IPv6 address (IPv4 ones mapped);
    /// none means every address.
    pub listen: Option<u128>,
    /// The port to listen on.
    pub port: u16,
    /// The directory downloads are saved in; none means the current one.
    pub save_to: Option<String>,
}

/// The settings of the client.
#[derive(Debug)]
pub struct Settings {
    pub config: Config,
}

/// The client, with its settings shared among its tasks.
pub struct RustorrentApp {
    pub settings: Arc<Settings>,
}

impl RustorrentApp {
    /// A client that runs with `settings`.
    pub fn new(settings: Settings) -> (r: Self)
        ensures
            *r.settings == settings,
    {
        RustorrentApp { settings: Arc::new(settings) }
    }
}

} // verus!

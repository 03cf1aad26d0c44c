//! Service configuration: fixed limits for uploads, samples, cache capacity
//! and connection count. Values are plain data; reading them from the
//! process environment is the embedding application's concern.

use vstd::prelude::*;

verus! {

/// Runtime limits and locations for the service.
pub struct Config {
    /// TCP port the embedding server listens on.
    pub port: u16,
    /// Directory where uploaded files are kept, as a plain path string.
    pub upload_dir: String,
    /// Largest upload accepted, in bytes.
    pub max_file_size: u64,
    /// Largest sample a client may request, in bytes.
    pub max_sample_size: usize,
    /// Total capacity of the sample cache, in bytes.
    pub cache_size: usize,
    /// Most concurrent sessions the embedding server accepts.
    pub max_connections: usize,
}

impl Config {
    /// The stock configuration: 10 GiB uploads, 128 MiB samples,
    /// a 512 MiB cache, 100 connections, port 3000.
    pub fn standard() -> (c: Config)
        ensures
            c.port == 3000,
            c.upload_dir@ == "./uploads"@,
            c.max_file_size == 0x2_8000_0000u64,
            c.max_sample_size == 0x800_0000usize,
            c.cache_size == 0x2000_0000usize,
            c.max_connections == 100,
    {
        Config {
            port: 3000,
            upload_dir: String::from_str("./uploads"),
            max_file_size: 0x2_8000_0000u64,
            max_sample_size: 0x800_0000usize,
            cache_size: 0x2000_0000usize,
            max_connections: 100,
        }
    }
}

impl Default for Config {
    fn default() -> (c: Config)
        ensures
            c.port == 3000,
            c.upload_dir@ == "./uploads"@,
            c.max_file_size == 0x2_8000_0000u64,
            c.max_sample_size == 0x800_0000usize,
            c.cache_size == 0x2000_0000usize,
            c.max_connections == 100,
    {
        Config::standard()
    }
}

} // verus!

//! The options that a node is started with.

use vstd::prelude::*;
use std::time::Duration;
use url::Url;

verus! {

/// `url::Url`, which Verus does not look into: the options carry it along.
#[verifier::external_type_specification]
#[verifier::external_body]
pub struct ExUrl(Url);

/// The span of `secs` whole seconds, as `Duration::from_secs` makes it.
pub uninterp spec fn duration_from_secs(secs: u64) -> Duration;

/// `Duration::from_secs`: the span of that many whole seconds.
#[verifier::external_body]
pub(crate) fn seconds(secs: u64) -> (span: Duration)
    ensures
        span == duration_from_secs(secs),
{
    Duration::from_secs(secs)
}

/// The seconds after which the secrets are rotated: 5 minutes.
pub const ROTATE_INTERVAL_SECS: u64 = 300;

/// The seconds after which a bucket counts as outdated, unless the options
/// say otherwise.
pub const DEFAULT_BUCKET_OUTDATED_SECS: u64 = 240;

/// Rotate secrets every 5 minutes.
pub fn rotate_interval() -> (interval: Duration)
    ensures
        interval == duration_from_secs(ROTATE_INTERVAL_SECS),
{
    seconds(ROTATE_INTERVAL_SECS)
}

/// The options of a node.
pub struct Opts {
    /// 160-bit DHT node ID (default: randomly generated)
    pub node_id: Option<[u8; 20]>,
    /// Bootstrap servers (default: none)
    pub bootstrap: Vec<Url>,
    /// Host of local peer, if specified then announces get added to local
    /// table (disabled by default)
    pub host: Option<Url>,
    /// Maximum concurrent UDP requests allowed.
    pub concurrency: usize,
    /// Check buckets
    pub time_bucket_outdated: Duration,
    /// The most routing tables kept at a time.
    pub max_tables: usize,
    /// The most announced values kept at a time.
    pub max_values: usize,
    /// Optional setting for announced peers to time out.
    pub max_age: Option<Duration>,
    /// The most announced peers kept at a time.
    pub max_peers: usize,
}

impl Default for Opts {
    fn default() -> (opts: Self)
        ensures
            opts.node_id is None,
            opts.bootstrap@.len() == 0,
            opts.host is None,
            opts.concurrency == 16,
            opts.time_bucket_outdated == duration_from_secs(DEFAULT_BUCKET_OUTDATED_SECS),
            opts.max_tables == 1000,
            opts.max_values == 1000,
            opts.max_age is None,
            opts.max_peers == 10000,
    {
        Opts {
            node_id: None,
            bootstrap: Vec::new(),
            host: None,
            concurrency: 16,
            time_bucket_outdated: seconds(DEFAULT_BUCKET_OUTDATED_SECS),
            max_tables: 1000,
            max_values: 1000,
            max_age: None,
            max_peers: 10000,
        }
    }
}

} // verus!

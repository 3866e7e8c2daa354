//! What every connection's queries are answered by.

use rustc_hash::FxHashMap;
use vstd::prelude::*;

use crate::config::{
    config_error, hosts_of, static_hosts_of, BlockMode, CacheConfig, Config, ConfigView, Profile,
    StaticHost, TlsSources,
};
use crate::dns::arena::GRAIN;
use crate::dns::cache::{KeyView, ResponseCache, MIN_POOL_BYTES};

verus! {

/// The part of the shared state that never changes: static hosts, and how to
/// answer for blocked domains.
pub struct AppState {
    pub static_hosts: FxHashMap<String, StaticHost>,
    pub block_mode: BlockMode,
    pub sinkhole_ip: [u8; 4],
    pub sinkhole_ttl: u32,
}

impl AppState {
    pub open spec fn hosts(&self) -> Map<Seq<char>, StaticHost> {
        hosts_of(self.static_hosts)
    }

    /// Whether this is what a configuration says.
    pub open spec fn is_built_from(self, config: Config) -> bool {
        &&& self.hosts() == static_hosts_of(config.static_hosts@, config.server.default_ttl)
        &&& self.block_mode == config.blocking.mode
        &&& self.sinkhole_ip == config.blocking.sinkhole_ip
        &&& self.sinkhole_ttl == config.server.default_ttl
    }

    pub fn build(config: &Config) -> (r: Self)
        ensures
            r.is_built_from(*config),
    {
        AppState {
            static_hosts: config.static_hosts_map(),
            block_mode: config.blocking.mode,
            sinkhole_ip: config.blocking.sinkhole_ip,
            sinkhole_ttl: config.server.default_ttl,
        }
    }
}

/// The response cache as it is configured. No larger a budget can be set aside than
/// memory can be addressed.
pub fn build_cache(config: &CacheConfig) -> (r: ResponseCache)
    requires
        config.enabled ==> config.max_size_bytes <= isize::MAX,
    ensures
        r.wf(),
        r.enabled() == (config.enabled && config.max_size_bytes >= MIN_POOL_BYTES),
        r.budget() == (if r.enabled() {
            config.max_size_bytes as int
        } else {
            0
        }),
        r.model().capacity == r.budget() / (GRAIN as int) * GRAIN,
        r.model().order.len() == 0,
        r.model().entries.dom() == Set::<KeyView>::empty(),
{
    ResponseCache::new(config.enabled, config.max_size_bytes)
}

/// A valid configuration's cache can be built.
pub proof fn law_valid_configurations_have_a_cache(
    config: ConfigView,
    profile: Profile,
    tls: TlsSources,
)
    requires
        config_error(config, profile, tls) is None,
    ensures
        config.cache.enabled ==> config.cache.max_size_bytes <= isize::MAX,
{
}

} // verus!

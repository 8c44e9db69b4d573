//! Per-invocation orchestration: decide from the cache whether the network
//! must be consulted, and fold a probe's answer back into the cache.
//!
//! The functions here run inside the background task. They never perform
//! I/O themselves: the caller loads and saves the cache and runs the probe,
//! and these functions make every decision in between.

use vstd::prelude::*;

use crate::CACHE_VALIDITY_SECONDS;
use crate::cache::{ToolVersionInfo, VersionCache};
use crate::version::{is_newer_version, spec_is_newer};

verus! {

/// A record checked at `last_check` is still fresh at `now`. A clock that
/// moved backwards never makes a record stale: the elapsed time saturates
/// at zero.
pub open spec fn record_fresh(last_check: u64, now: u64) -> bool {
    now <= last_check || now - last_check < CACHE_VALIDITY_SECONDS
}

/// Whether a cached record answers the question without the network.
pub enum CacheVerdict {
    /// A fresh record names a version newer than the current one: advise it.
    HitNewer(String),
    /// A fresh record shows nothing to advise; the cache is left as it was.
    HitQuiet,
    /// A fresh record is itself behind the current version; it was evicted
    /// and the cache must be saved again.
    HitStale,
    /// No fresh record: the registry must be probed.
    Miss,
}

/// Executable freshness test.
pub fn is_fresh(last_check: u64, now: u64) -> (r: bool)
    ensures
        r == record_fresh(last_check, now),
{
    if now <= last_check {
        true
    } else {
        now - last_check < CACHE_VALIDITY_SECONDS
    }
}

/// Decide from the cache alone. The network is needed exactly when the
/// verdict is `Miss`: when no record exists for the tool, or the record is
/// past the validity window. Eviction of a fresh record that is behind the
/// current version is a policy choice, enabled by `evict_stale`.
pub fn consult_cache(
    cache: &mut VersionCache,
    tool_name: &str,
    current_version: &str,
    now: u64,
    evict_stale: bool,
) -> (v: CacheVerdict)
    requires
        old(cache).wf(),
    ensures
        final(cache).wf(),
        ({
            let m = old(cache)@;
            if m.contains_key(tool_name@) && record_fresh(m[tool_name@].0, now) {
                let latest = m[tool_name@].1;
                if spec_is_newer(current_version@, latest) {
                    &&& v matches CacheVerdict::HitNewer(adv) && adv@ == latest
                    &&& final(cache)@ == m
                } else if evict_stale && spec_is_newer(latest, current_version@) {
                    &&& v is HitStale
                    &&& final(cache)@ =~= m.remove(tool_name@)
                } else {
                    &&& v is HitQuiet
                    &&& final(cache)@ == m
                }
            } else {
                &&& v is Miss
                &&& final(cache)@ == m
            }
        }),
{
    let mut found: Option<(u64, String)> = None;
    match cache.lookup(tool_name) {
        Some(info) => {
            found = Some((info.last_check, info.latest.clone()));
        },
        None => {},
    }
    match found {
        None => CacheVerdict::Miss,
        Some((last_check, latest)) => {
            if !is_fresh(last_check, now) {
                CacheVerdict::Miss
            } else if is_newer_version(current_version, latest.as_str()) {
                CacheVerdict::HitNewer(latest)
            } else if evict_stale && is_newer_version(latest.as_str(), current_version) {
                cache.remove(tool_name);
                CacheVerdict::HitStale
            } else {
                CacheVerdict::HitQuiet
            }
        },
    }
}

/// Fold the probe's answer into the cache. No answer leaves the cache
/// untouched and advises nothing (failures are never cached); an answer is
/// recorded at `now` and advised exactly when it is newer than the current
/// version.
pub fn absorb_probe(
    cache: &mut VersionCache,
    tool_name: &str,
    current_version: &str,
    now: u64,
    probed: Option<String>,
) -> (r: Option<String>)
    requires
        old(cache).wf(),
    ensures
        final(cache).wf(),
        probed is None ==> r is None && *final(cache) == *old(cache),
        probed matches Some(v) ==> {
            &&& final(cache)@ =~= old(cache)@.insert(tool_name@, (now, v@))
            &&& if spec_is_newer(current_version@, v@) {
                r matches Some(adv) && adv@ == v@
            } else {
                r is None
            }
        },
{
    match probed {
        None => None,
        Some(latest) => {
            let advise = is_newer_version(current_version, latest.as_str());
            cache.upsert(
                tool_name,
                ToolVersionInfo { last_check: now, latest: latest.clone() },
            );
            if advise {
                Some(latest)
            } else {
                None
            }
        },
    }
}

/// Answer deterministically from an injected "latest version" override,
/// consulting neither cache nor network: the override is advised exactly
/// when it is newer than the current version.
pub fn decide_override(current_version: &str, fake_latest: String) -> (r: Option<String>)
    ensures
        if spec_is_newer(current_version@, fake_latest@) {
            r matches Some(adv) && adv@ == fake_latest@
        } else {
            r is None
        },
{
    if is_newer_version(current_version, fake_latest.as_str()) {
        Some(fake_latest)
    } else {
        None
    }
}

/// Relies on std's `SystemTime`: the wall clock as seconds since the Unix
/// epoch, or zero when the clock reads before the epoch. The result depends
/// on the machine's clock, so nothing further is promised of it.
#[verifier::external_body]
pub fn get_current_timestamp() -> u64 {
    match std::time::SystemTime::now().duration_since(std::time::UNIX_EPOCH) {
        Ok(d) => d.as_secs(),
        Err(_) => 0,
    }
}

} // verus!

//! Pure helpers for the remote shared store and pub/sub bus: key and channel
//! namespacing under the configured prefix, and deadline conversion from the
//! server's millisecond TTL report.

use vstd::prelude::*;
use vstd::string::StringExecFns;

use crate::storage::sat_add;

verus! {

/// The namespaced storage key `{prefix}:{key}`.
pub fn full_key(prefix: &str, key: &str) -> (r: String)
    ensures
        r@ == prefix@ + seq![':'] + key@,
{
    let mut s = prefix.to_owned();
    s.append(":");
    s.append(key);
    proof {
        reveal_strlit(":");
        assert(s@ =~= prefix@ + seq![':'] + key@);
    }
    s
}

/// The access sorted set `{prefix}:_lru`.
pub fn lru_key(prefix: &str) -> (r: String)
    ensures
        r@ == prefix@ + ":_lru"@,
{
    let mut s = prefix.to_owned();
    s.append(":_lru");
    s
}

/// The accumulated metric key `{prefix}:metrics:{name}`.
pub fn metrics_key(prefix: &str, name: &str) -> (r: String)
    ensures
        r@ == prefix@ + ":metrics:"@ + name@,
{
    let mut s = prefix.to_owned();
    s.append(":metrics:");
    s.append(name);
    s
}

/// The invalidation channel `{prefix}:invalidate`.
pub fn invalidate_channel(prefix: &str) -> (r: String)
    ensures
        r@ == prefix@ + ":invalidate"@,
{
    let mut s = prefix.to_owned();
    s.append(":invalidate");
    s
}

/// The node-targeted channel `{prefix}:node:{node_id}:invalidate`.
pub fn node_channel(prefix: &str, node_id: &str) -> (r: String)
    ensures
        r@ == prefix@ + ":node:"@ + node_id@ + ":invalidate"@,
{
    let mut s = prefix.to_owned();
    s.append(":node:");
    s.append(node_id);
    s.append(":invalidate");
    s
}

/// The liveness marker key `{prefix}:node:{node_id}`.
pub fn heartbeat_key(prefix: &str, node_id: &str) -> (r: String)
    ensures
        r@ == prefix@ + ":node:"@ + node_id@,
{
    let mut s = prefix.to_owned();
    s.append(":node:");
    s.append(node_id);
    s
}

/// The absolute deadline a reported millisecond TTL means at `now`: no
/// deadline when the key has no expiry (non-positive report).
pub fn pttl_to_deadline(pttl: i64, now: u64) -> (r: Option<u64>)
    ensures
        r == (if pttl > 0 {
            Some(sat_add(now, (pttl / 1000) as u64))
        } else {
            None::<u64>
        }),
{
    if pttl > 0 {
        let secs = (pttl / 1000) as u64;
        if secs <= u64::MAX - now {
            Some(now + secs)
        } else {
            Some(u64::MAX)
        }
    } else {
        None
    }
}

} // verus!

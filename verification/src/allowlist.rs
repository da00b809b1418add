//! Built-in allowlist of non-PII, diagnostic addresses that must never be
//! anonymized: fixed, public, documented values whose whole purpose is
//! troubleshooting.

use vstd::prelude::*;
use crate::config::Config;

verus! {

/// Azure Instance Metadata Service (IMDS), `169.254.169.254`.
pub const AZURE_IMDS: u32 = 0xA9FE_A9FE;

/// Azure "WireServer" / platform DNS, `168.63.129.16`.
pub const AZURE_WIRESERVER: u32 = 0xA83F_8110;

/// IPv4 addresses left verbatim: loopback `127.0.0.0/8`, `0.0.0.0`,
/// `255.255.255.255`, IMDS, WireServer, and the caller's extras.
pub open spec fn ipv4_allowlisted(addr: u32, extra: Seq<u32>) -> bool {
    ||| addr / 0x0100_0000 == 127
    ||| addr == 0
    ||| addr == 0xFFFF_FFFF
    ||| addr == AZURE_IMDS
    ||| addr == AZURE_WIRESERVER
    ||| extra.contains(addr)
}

/// IPv6 addresses left verbatim: `::1` and `::`.
pub open spec fn ipv6_allowlisted(addr: u128) -> bool {
    addr == 1 || addr == 0
}

/// Returns `true` if `addr` is a diagnostic / non-PII IPv4 address that
/// should be left verbatim.
pub fn is_ipv4_allowlisted(addr: u32, cfg: &Config) -> (r: bool)
    ensures
        r == ipv4_allowlisted(addr, cfg.extra_ipv4_allowlist@),
{
    if addr / 0x0100_0000 == 127 {
        return true;
    }
    if addr == 0 || addr == 0xFFFF_FFFF {
        return true;
    }
    if addr == AZURE_IMDS || addr == AZURE_WIRESERVER {
        return true;
    }
    let extra = &cfg.extra_ipv4_allowlist;
    let mut i: usize = 0;
    while i < extra.len()
        invariant
            i <= extra@.len(),
            extra@ == cfg.extra_ipv4_allowlist@,
            forall|j: int| 0 <= j < i ==> extra@[j] != addr,
        decreases extra@.len() - i,
    {
        if extra[i] == addr {
            assert(extra@.contains(addr));
            return true;
        }
        i = i + 1;
    }
    assert(!extra@.contains(addr));
    false
}

/// Law (the built-in IPv4 allowlist): whatever extras are configured,
/// `0.0.0.0`, `255.255.255.255`, every `127.x.y.z`, `169.254.169.254` (IMDS)
/// and `168.63.129.16` (WireServer) are allowlisted, as is every extra; and
/// no other address is.
pub proof fn lemma_builtin_ipv4_allowlist(extra: Seq<u32>, a: u32)
    ensures
        ipv4_allowlisted(0x0000_0000, extra),
        ipv4_allowlisted(0xFFFF_FFFF, extra),
        ipv4_allowlisted(0xA9FE_A9FE, extra),
        ipv4_allowlisted(0xA83F_8110, extra),
        0x7F00_0000 <= a <= 0x7FFF_FFFF ==> ipv4_allowlisted(a, extra),
        extra.contains(a) ==> ipv4_allowlisted(a, extra),
        ipv4_allowlisted(a, extra) ==> (a == 0 || a == 0xFFFF_FFFF || a == 0xA9FE_A9FE || a == 0xA83F_8110
            || (0x7F00_0000 <= a <= 0x7FFF_FFFF) || extra.contains(a)),
{
}

/// Law (the IPv6 allowlist): exactly `::` and `::1` are allowlisted.
pub proof fn lemma_builtin_ipv6_allowlist(a: u128)
    ensures
        ipv6_allowlisted(a) <==> (a == 0 || a == 1),
{
}

/// Returns `true` if `addr` is a diagnostic / non-PII IPv6 address that
/// should be left verbatim.
pub fn is_ipv6_allowlisted(addr: u128) -> (r: bool)
    ensures
        r == ipv6_allowlisted(addr),
{
    addr == 1 || addr == 0
}

} // verus!

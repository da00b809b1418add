//! Configuration for the [`crate::Anonymizer`].

use vstd::prelude::*;

verus! {

/// Runtime configuration. Construct via [`Config::default`] (all recognizers
/// on, safe defaults) and adjust with the builder methods.
///
/// IPv4 addresses are held as their big-endian 32-bit value
/// (`a.b.c.d` is `a << 24 | b << 16 | c << 8 | d`).
#[derive(Clone, Debug)]
pub struct Config {
    /// Optional salt. Reserved for future cross-run-stable pseudonym
    /// derivation. When `None` (default), pseudonyms are stable only within a
    /// single [`crate::Anonymizer`] instance.
    pub salt: Option<String>,
    /// Default network prefix used to group IPv4 addresses when no CIDR is
    /// known from context. Defaults to `24`.
    pub ipv4_default_prefix: u8,
    /// Default network prefix used to group IPv6 addresses when no CIDR is
    /// known from context. Defaults to `64`.
    pub ipv6_default_prefix: u8,
    /// Enable/disable individual recognizer categories.
    pub enable_ip: bool,
    pub enable_mac: bool,
    pub enable_guid: bool,
    pub enable_email: bool,
    pub enable_hostname: bool,
    pub enable_secret: bool,
    /// Azure-specific recognizers (resource IDs).
    pub enable_azure: bool,
    /// Additional IPv4 addresses to treat as non-PII (never anonymized), on
    /// top of the built-in allowlist (loopback, IMDS, WireServer, …).
    pub extra_ipv4_allowlist: Vec<u32>,
}

impl Config {
    /// Every setting but the salt is as in `other`.
    pub open spec fn same_but_salt(self, other: Config) -> bool {
        &&& self.ipv4_default_prefix == other.ipv4_default_prefix
        &&& self.ipv6_default_prefix == other.ipv6_default_prefix
        &&& self.same_switches(other)
        &&& self.extra_ipv4_allowlist@ == other.extra_ipv4_allowlist@
    }

    /// The recognizer switches are as in `other`.
    pub open spec fn same_switches(self, other: Config) -> bool {
        &&& self.enable_ip == other.enable_ip
        &&& self.enable_mac == other.enable_mac
        &&& self.enable_guid == other.enable_guid
        &&& self.enable_email == other.enable_email
        &&& self.enable_hostname == other.enable_hostname
        &&& self.enable_secret == other.enable_secret
        &&& self.enable_azure == other.enable_azure
    }

    /// Set the salt used for pseudonym derivation (reserved for cross-run
    /// stability). Pass `None` for per-run-only stability (the default).
    pub fn with_salt(self, salt: Option<String>) -> (r: Self)
        ensures
            r.salt == salt,
            r.same_but_salt(self),
    {
        let mut c = self;
        c.salt = salt;
        c
    }

    /// Set the default IPv4 grouping prefix (capped at 32).
    pub fn ipv4_default_prefix(self, prefix: u8) -> (r: Self)
        ensures
            r.ipv4_default_prefix == (if prefix < 32 { prefix } else { 32 }),
            r.salt == self.salt,
            r.ipv6_default_prefix == self.ipv6_default_prefix,
            r.same_switches(self),
            r.extra_ipv4_allowlist@ == self.extra_ipv4_allowlist@,
    {
        let mut c = self;
        c.ipv4_default_prefix = if prefix < 32 { prefix } else { 32 };
        c
    }

    /// Set the default IPv6 grouping prefix (capped at 128).
    pub fn ipv6_default_prefix(self, prefix: u8) -> (r: Self)
        ensures
            r.ipv6_default_prefix == (if prefix < 128 { prefix } else { 128 }),
            r.salt == self.salt,
            r.ipv4_default_prefix == self.ipv4_default_prefix,
            r.same_switches(self),
            r.extra_ipv4_allowlist@ == self.extra_ipv4_allowlist@,
    {
        let mut c = self;
        c.ipv6_default_prefix = if prefix < 128 { prefix } else { 128 };
        c
    }

    /// Add an IPv4 address (big-endian 32-bit value) to the non-PII
    /// allowlist.
    pub fn allow_ipv4(self, addr: u32) -> (r: Self)
        ensures
            r.extra_ipv4_allowlist@ == self.extra_ipv4_allowlist@.push(addr),
            r.salt == self.salt,
            r.ipv4_default_prefix == self.ipv4_default_prefix,
            r.ipv6_default_prefix == self.ipv6_default_prefix,
            r.same_switches(self),
    {
        let mut c = self;
        c.extra_ipv4_allowlist.push(addr);
        c
    }
}

impl Default for Config {
    /// All recognizers on, `/24` and `/64` grouping, no salt, no extra
    /// allowlisted addresses.
    fn default() -> (r: Self)
        ensures
            r.salt is None,
            r.ipv4_default_prefix == 24,
            r.ipv6_default_prefix == 64,
            r.enable_ip && r.enable_mac && r.enable_guid && r.enable_email,
            r.enable_hostname && r.enable_secret && r.enable_azure,
            r.extra_ipv4_allowlist@ == Seq::<u32>::empty(),
    {
        Config {
            salt: None,
            ipv4_default_prefix: 24,
            ipv6_default_prefix: 64,
            enable_ip: true,
            enable_mac: true,
            enable_guid: true,
            enable_email: true,
            enable_hostname: true,
            enable_secret: true,
            enable_azure: true,
            extra_ipv4_allowlist: Vec::new(),
        }
    }
}

} // verus!

//! Conservative FQDN / hostname recognizer.
//!
//! Free-text hostname detection is heuristic, so this recognizer is narrow:
//!
//! - Only fully-qualified names with at least three labels match.
//! - The final label must be a real TLD (public or internal), so kernel
//!   sysctl variables (`net.core.somaxconn`) and dotted filenames
//!   (`pacemaker.log-20250101.gz`) are ignored.
//! - Well-known public / vendor / cloud domains (`access.redhat.com`,
//!   `*.blob.storage.azure.net`) are kept verbatim: they are not PII.
//! - Hosts that are the authority of a URL (`https://access.redhat.com/...`)
//!   are skipped so documentation links stay intact.

use vstd::prelude::*;
use vstd::string::*;
use vstd::utf8::encode_utf8;
use crate::bytes::{
    ascii_lower_seq, ascii_lowercase_bytes, bytes_eq, find_last_byte, last_index_of,
    lemma_last_index_of,
};
use crate::netaddr::DOT;
use crate::pattern::{find_spans, is_match_range, regex_find_spans};
use super::{lemma_hits_satisfy, keeps_positions, lemma_hits_in_order, results_in_order, hits_of, results_in_text, tagged, EntityType, Recognizer, RecognizerResult};

verus! {

/// At least three labels, the final one alphabetic (so dotted-quad IPs never
/// match).
pub const FQDN_PATTERN: &'static str = r"\b(?:[A-Za-z0-9](?:[A-Za-z0-9-]{0,61}[A-Za-z0-9])?\.){2,}[A-Za-z]{2,24}\b";

/// What precedes the authority of a URL.
pub const URL_SCHEME_END: &'static str = "://";

/// Real TLDs accepted as domain-terminating (common public and
/// private/internal).
#[verifier::opaque]
pub open spec fn tld_list() -> Seq<Seq<char>> {
    seq![
        "com"@, "net"@, "org"@, "io"@, "gov"@, "edu"@, "mil"@, "co"@, "info"@, "biz"@, "cloud"@,
        "dev"@, "app"@, "me"@, "ai"@, "xyz"@, "tv"@, "name"@, "pro"@, "site"@, "online"@,
        "tech"@,
        "us"@, "uk"@, "de"@, "fr"@, "jp"@, "cn"@, "au"@, "ca"@, "eu"@, "in"@, "br"@, "ru"@, "it"@,
        "es"@, "nl"@, "se"@, "no"@, "fi"@, "ch"@, "at"@, "be"@, "dk"@, "pl"@, "cz"@, "ie"@, "nz"@,
        "za"@, "sg"@, "kr"@, "tr"@, "mx"@,
        "local"@, "internal"@, "intranet"@, "intra"@, "lan"@, "home"@, "corp"@,
        "localdomain"@,
    ]
}

/// Public / vendor / cloud domains kept verbatim (a host matches when it is
/// the domain or a subdomain of it).
#[verifier::opaque]
pub open spec fn public_domain_list() -> Seq<Seq<char>> {
    seq![
        "redhat.com"@, "microsoft.com"@, "azure.com"@, "azure.net"@, "windows.net"@,
        "core.windows.net"@, "cloudapp.azure.com"@, "ubuntu.com"@, "canonical.com"@, "suse.com"@,
        "opensuse.org"@, "kernel.org"@, "github.com"@, "gitlab.com"@, "debian.org"@,
        "centos.org"@, "rockylinux.org"@, "almalinux.org"@, "oracle.com"@, "google.com"@,
        "googleapis.com"@, "amazonaws.com"@, "cloudflare.com"@, "letsencrypt.org"@,
        "docker.com"@, "docker.io"@, "python.org"@, "rust-lang.org"@, "npmjs.com"@,
        "fedoraproject.org"@, "launchpad.net"@, "nvidia.com"@, "intel.com"@,
    ]
}

fn tlds() -> (r: Vec<&'static str>)
    ensures
        r@.map_values(|s: &'static str| s@) == tld_list(),
{
    let v = vec![
        "com", "net", "org", "io", "gov", "edu", "mil", "co", "info", "biz", "cloud",
        "dev", "app", "me", "ai", "xyz", "tv", "name", "pro", "site", "online",
        "tech",
        "us", "uk", "de", "fr", "jp", "cn", "au", "ca", "eu", "in", "br", "ru", "it",
        "es", "nl", "se", "no", "fi", "ch", "at", "be", "dk", "pl", "cz", "ie", "nz",
        "za", "sg", "kr", "tr", "mx",
        "local", "internal", "intranet", "intra", "lan", "home", "corp",
        "localdomain",
    ];
    reveal(tld_list);
    assert(v@.map_values(|s: &'static str| s@) =~= tld_list());
    v
}

fn public_domains() -> (r: Vec<&'static str>)
    ensures
        r@.map_values(|s: &'static str| s@) == public_domain_list(),
{
    let v = vec![
        "redhat.com", "microsoft.com", "azure.com", "azure.net", "windows.net",
        "core.windows.net", "cloudapp.azure.com", "ubuntu.com", "canonical.com", "suse.com",
        "opensuse.org", "kernel.org", "github.com", "gitlab.com", "debian.org",
        "centos.org", "rockylinux.org", "almalinux.org", "oracle.com", "google.com",
        "googleapis.com", "amazonaws.com", "cloudflare.com", "letsencrypt.org",
        "docker.com", "docker.io", "python.org", "rust-lang.org", "npmjs.com",
        "fedoraproject.org", "launchpad.net", "nvidia.com", "intel.com",
    ];
    reveal(public_domain_list);
    assert(v@.map_values(|s: &'static str| s@) =~= public_domain_list());
    v
}

/// The part of a host after its last `.` (the whole host when it has none).
pub open spec fn last_label_of(h: Seq<u8>) -> Seq<u8> {
    match last_index_of(h, DOT) {
        Some(i) => h.subrange(i + 1, h.len() as int),
        None => h,
    }
}

/// Whether the last label, lowercased, is one of the accepted TLDs.
pub open spec fn has_valid_tld(h: Seq<u8>) -> bool {
    exists|i: int|
        0 <= i < tld_list().len() && encode_utf8(#[trigger] tld_list()[i]) == ascii_lower_seq(
            last_label_of(h),
        )
}

/// `l` is `d` or ends with `.` followed by `d`.
pub open spec fn is_domain_or_subdomain(l: Seq<u8>, d: Seq<u8>) -> bool {
    l == d || (l.len() > d.len() && l[l.len() - d.len() - 1] == DOT && l.subrange(
        l.len() - d.len(),
        l.len() as int,
    ) == d)
}

/// Whether the host, lowercased, is a public domain or a subdomain of one.
pub open spec fn is_public(h: Seq<u8>) -> bool {
    exists|i: int|
        0 <= i < public_domain_list().len() && is_domain_or_subdomain(
            ascii_lower_seq(h),
            encode_utf8(#[trigger] public_domain_list()[i]),
        )
}

/// Whether `s` ends with `x`.
pub open spec fn ends_with(s: Seq<u8>, x: Seq<u8>) -> bool {
    s.len() >= x.len() && s.subrange(s.len() - x.len(), s.len() as int) == x
}

/// A candidate is kept unless it follows `://`, lacks a real TLD, or is a
/// public domain; score 50, below the structured recognizers.
pub open spec fn hostname_hit(text: Seq<u8>) -> spec_fn((usize, usize)) -> Option<RecognizerResult> {
    |sp: (usize, usize)|
        {
            let h = text.subrange(sp.0 as int, sp.1 as int);
            if !ends_with(text.take(sp.0 as int), URL_SCHEME_END.spec_bytes()) && has_valid_tld(h)
                && !is_public(h) {
                Some(tagged(sp, EntityType::Hostname, 50))
            } else {
                None
            }
        }
}

pub open spec fn hostname_hits(text: Seq<char>) -> Seq<RecognizerResult> {
    hits_of(regex_find_spans(FQDN_PATTERN@, text), hostname_hit(encode_utf8(text)))
}

/// Law: every hostname report is a `Hostname` with score 50 that does not
/// follow `://`, ends in an accepted TLD, and is not a public domain.
pub proof fn lemma_hostname_hits(text: Seq<char>)
    ensures
        forall|r: RecognizerResult| #[trigger] hostname_hits(text).contains(r) ==> {
            let h = encode_utf8(text).subrange(r.start as int, r.end as int);
            &&& r.entity == EntityType::Hostname
            &&& r.score == 50
            &&& !ends_with(encode_utf8(text).take(r.start as int), URL_SCHEME_END.spec_bytes())
            &&& has_valid_tld(h)
            &&& !is_public(h)
        },
{
    let tb = encode_utf8(text);
    let f = hostname_hit(tb);
    let p = |r: RecognizerResult|
        {
            let h = tb.subrange(r.start as int, r.end as int);
            &&& r.entity == EntityType::Hostname
            &&& r.score == 50
            &&& !ends_with(tb.take(r.start as int), URL_SCHEME_END.spec_bytes())
            &&& has_valid_tld(h)
            &&& !is_public(h)
        };
    assert(forall|sp: (usize, usize)| #[trigger] f(sp) matches Some(x) ==> p(x));
    match regex_find_spans(FQDN_PATTERN@, text) {
        Some(v) => lemma_hits_satisfy(v, f, p),
        None => {},
    }
}

/// Where the last label of the host `bytes[lo..hi]` starts: after its last
/// `.`, or at its start when it has none.
fn last_label(bytes: &[u8], lo: usize, hi: usize) -> (r: usize)
    requires
        lo <= hi <= bytes@.len(),
    ensures
        lo <= r <= hi,
        bytes@.subrange(r as int, hi as int) == last_label_of(bytes@.subrange(lo as int, hi as int)),
{
    let ghost h = bytes@.subrange(lo as int, hi as int);
    proof {
        lemma_last_index_of(h, DOT);
    }
    let start = match find_last_byte(bytes, lo, hi, DOT) {
        Some(i) => i + 1,
        None => lo,
    };
    assert(bytes@.subrange(start as int, hi as int) =~= last_label_of(h));
    start
}

/// Whether `bytes[lo..hi]`'s last label is an accepted TLD.
fn is_valid_tld(bytes: &[u8], lo: usize, hi: usize) -> (r: bool)
    requires
        lo <= hi <= bytes@.len(),
    ensures
        r == has_valid_tld(bytes@.subrange(lo as int, hi as int)),
{
    let ghost h = bytes@.subrange(lo as int, hi as int);
    proof {
        lemma_last_index_of(h, DOT);
    }
    let start = last_label(bytes, lo, hi);
    let t = ascii_lowercase_bytes(bytes, start, hi);
    let list = tlds();
    assert(list@.map_values(|s: &'static str| s@).len() == list@.len());
    let mut k: usize = 0;
    while k < list.len()
        invariant
            k <= list@.len(),
            lo <= hi <= bytes@.len(),
            h == bytes@.subrange(lo as int, hi as int),
            list@.map_values(|s: &'static str| s@) == tld_list(),
            tld_list().len() == list@.len(),
            t@ == ascii_lower_seq(last_label_of(h)),
            forall|j: int| 0 <= j < k ==> encode_utf8(#[trigger] tld_list()[j]) != t@,
        decreases list@.len() - k,
    {
        let d = list[k];
        assert(tld_list()[k as int] == d@);
        assert(t@.subrange(0, t@.len() as int) =~= t@);
        let ts = t.as_slice();
        assert(ts@ == t@);
        if bytes_eq(ts, 0, t.len(), d.as_bytes()) {
            assert(encode_utf8(tld_list()[k as int]) == t@);
            return true;
        }
        k = k + 1;
    }
    false
}

/// Whether `bytes[lo..hi]`, lowercased, is a public domain or a subdomain of
/// one.
fn is_public_domain(bytes: &[u8], lo: usize, hi: usize) -> (r: bool)
    requires
        lo <= hi <= bytes@.len(),
    ensures
        r == is_public(bytes@.subrange(lo as int, hi as int)),
{
    let ghost h = bytes@.subrange(lo as int, hi as int);
    let l = ascii_lowercase_bytes(bytes, lo, hi);
    let list = public_domains();
    assert(list@.map_values(|s: &'static str| s@).len() == list@.len());
    let mut k: usize = 0;
    while k < list.len()
        invariant
            k <= list@.len(),
            lo <= hi <= bytes@.len(),
            h == bytes@.subrange(lo as int, hi as int),
            list@.map_values(|s: &'static str| s@) == public_domain_list(),
            public_domain_list().len() == list@.len(),
            l@ == ascii_lower_seq(h),
            forall|j: int|
                0 <= j < k ==> !is_domain_or_subdomain(l@, encode_utf8(#[trigger] public_domain_list()[j])),
        decreases list@.len() - k,
    {
        let d = list[k];
        assert(public_domain_list()[k as int] == d@);
        let db = d.as_bytes();
        let n = l.len();
        let m = db.len();
        let ls = l.as_slice();
        assert(ls@ == l@);
        assert(l@.subrange(0, n as int) =~= l@);
        assert(db@ == encode_utf8(public_domain_list()[k as int]));
        if bytes_eq(ls, 0, n, db) {
            assert(is_domain_or_subdomain(l@, encode_utf8(public_domain_list()[k as int])));
            return true;
        }
        if n > m && l[n - m - 1] == DOT && bytes_eq(ls, n - m, n, db) {
            assert(is_domain_or_subdomain(l@, encode_utf8(public_domain_list()[k as int])));
            return true;
        }
        k = k + 1;
    }
    false
}

pub struct HostnameRecognizer;

impl HostnameRecognizer {
    pub fn new() -> (r: Self)
        ensures
            r == HostnameRecognizer,
    {
        HostnameRecognizer
    }
}

impl Recognizer for HostnameRecognizer {
    fn recognize(&self, text: &str) -> (r: Vec<RecognizerResult>)
        ensures
            r@ == hostname_hits(text@),
            results_in_text(r@, text@),
            results_in_order(r@),
    {
        let mut out: Vec<RecognizerResult> = Vec::new();
        let tb = text.as_bytes();
        let ghost f = hostname_hit(text.spec_bytes());
        match find_spans(FQDN_PATTERN, text) {
            None => {},
            Some(v) => {
                let mut i: usize = 0;
                while i < v.len()
                    invariant
                        i <= v@.len(),
                        tb@ == text.spec_bytes(),
                        f == hostname_hit(text.spec_bytes()),
                        forall|j: int| 0 <= j < v@.len() ==> is_match_range(text@, #[trigger] v@[j]),
                        out@ == v@.take(i as int).filter_map(f),
                        results_in_text(out@, text@),
                    decreases v@.len() - i,
                {
                    proof {
                        v@.lemma_filter_map_take_succ(f, i as int);
                    }
                    let (s, e) = v[i];
                    assert(is_match_range(text@, v@[i as int]));
                    let sep = URL_SCHEME_END.as_bytes();
                    let after_scheme = s >= sep.len() && bytes_eq(tb, s - sep.len(), s, sep);
                    if s >= sep.len() {
                        assert(tb@.take(s as int).subrange(s - sep@.len(), s as int) =~= tb@.subrange(
                            s - sep@.len(),
                            s as int,
                        ));
                    }
                    assert(after_scheme == ends_with(tb@.take(s as int), URL_SCHEME_END.spec_bytes()));
                    if !after_scheme && is_valid_tld(tb, s, e) && !is_public_domain(tb, s, e) {
                        out.push(RecognizerResult::new(s, e, EntityType::Hostname, 50));
                    }
                    i = i + 1;
                }
                assert(v@.take(v@.len() as int) =~= v@);
                proof {
                    assert(keeps_positions(f));
                    lemma_hits_in_order(v@, f);
                }
            },
        }
        out
    }
}

} // verus!

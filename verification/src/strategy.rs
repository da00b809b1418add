//! Token formatting ("operators"): the replacement text for each kind of
//! entity. All bookkeeping (indices, subnet labels) lives in the engine;
//! these functions only spell out the final tokens.

use vstd::prelude::*;
use vstd::string::*;
use crate::pattern::{find_spans, regex_find_spans};
use crate::text::{decimal, decimal_string};

verus! {

/// `[[IPv4|net-A|h1]]`, optionally followed by the preserved `/NN` prefix.
pub open spec fn ip_token_text(kind: Seq<char>, label: Seq<char>, host: nat, prefix: Option<u8>) -> Seq<
    char,
> {
    "[["@ + kind + "|net-"@ + label + "|h"@ + decimal(host) + "]]"@ + match prefix {
        Some(p) => "/"@ + decimal(p as nat),
        None => Seq::empty(),
    }
}

/// `[[MAC|00:0d:3a|dev1]]`: OUI preserved, NIC part pseudonymized.
pub open spec fn mac_token_text(oui: Seq<char>, device: nat) -> Seq<char> {
    "[[MAC|"@ + oui + "|dev"@ + decimal(device) + "]]"@
}

/// `[[GUID-A]]`, `[[HOST-B]]`, …: entity label and base-26 letter tag.
pub open spec fn lettered_token_text(label: Seq<char>, letters: Seq<char>) -> Seq<char> {
    "[["@ + label + "-"@ + letters + "]]"@
}

/// Full-redaction sentinel for secrets, keys and tokens.
pub const SECRET_TOKEN: &'static str = "[[SECRET]]";

/// Canonical-form GUID, matched as a whole string.
pub const GUID_ONLY_PATTERN: &'static str = r"^[0-9A-Fa-f]{8}-[0-9A-Fa-f]{4}-[0-9A-Fa-f]{4}-[0-9A-Fa-f]{4}-[0-9A-Fa-f]{12}$";

/// Whether the whole of `s` is a canonical-form GUID (the GUID pattern,
/// anchored at both ends, matches somewhere).
pub open spec fn guid_shaped(s: Seq<char>) -> bool {
    regex_find_spans(GUID_ONLY_PATTERN@, s) matches Some(v) && v.len() > 0
}

/// `[[IPv4|net-A|h1]]` (optionally suffixed with the preserved `/NN` prefix).
pub fn ip_token(kind: &str, label_letters: &str, host: usize, prefix: Option<u8>) -> (r: String)
    ensures
        r@ == ip_token_text(kind@, label_letters@, host as nat, prefix),
{
    let mut t = String::new();
    t.append("[[");
    t.append(kind);
    t.append("|net-");
    t.append(label_letters);
    t.append("|h");
    let h = decimal_string(host);
    t.append(h.as_str());
    t.append("]]");
    match prefix {
        Some(p) => {
            t.append("/");
            let ps = decimal_string(p as usize);
            t.append(ps.as_str());
        },
        None => {},
    }
    t
}

/// `[[MAC|00:0d:3a|dev1]]` — OUI preserved, NIC portion pseudonymized.
pub fn mac_token(oui: &str, device: usize) -> (r: String)
    ensures
        r@ == mac_token_text(oui@, device as nat),
{
    let mut t = String::new();
    t.append("[[MAC|");
    t.append(oui);
    t.append("|dev");
    let d = decimal_string(device);
    t.append(d.as_str());
    t.append("]]");
    t
}

/// `[[GUID-A]]`, `[[GUID-B]]`, … — label plus base-26 letter tag.
pub fn lettered_token(label: &str, letters: &str) -> (r: String)
    ensures
        r@ == lettered_token_text(label@, letters@),
{
    let mut t = String::new();
    t.append("[[");
    t.append(label);
    t.append("-");
    t.append(letters);
    t.append("]]");
    t
}

/// Whether an entire string is a canonical-form GUID.
pub fn is_guid(s: &str) -> (r: bool)
    ensures
        r == guid_shaped(s@),
{
    match find_spans(GUID_ONLY_PATTERN, s) {
        Some(v) => v.len() > 0,
        None => false,
    }
}

} // verus!

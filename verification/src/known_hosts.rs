//! Explicitly registered hostnames (such as the host named by a sosreport or
//! supportconfig archive), scrubbed wherever they appear as whole words.
//!
//! The registry is kept duplicate-free and ordered longest first (in bytes),
//! with hosts of equal length in registration order, so that in the
//! alternation built from it an FQDN is preferred over its short label.

use vstd::prelude::*;
use vstd::string::*;
use vstd::utf8::encode_utf8;
use crate::bytes::{all_digits, is_digit};
use crate::pattern::{escape, regex_escaped, regex_find_spans};
use crate::recognizers::{hits_of, tag_all_spec, EntityType, RecognizerResult};
use crate::store::names_view;
use crate::text::unicode_lowercase;

verus! {

/// Opening of the whole-word, case-insensitive alternation of registered
/// hosts.
pub const KNOWN_HOST_OPEN: &'static str = r"(?i)\b(?:";

/// Closing of the alternation.
pub const KNOWN_HOST_CLOSE: &'static str = r")\b";

/// Confidence (percent) of a registered-host match.
pub const KNOWN_HOST_SCORE: u32 = 80;

/// Length of a string in UTF-8 bytes.
pub open spec fn byte_len(s: Seq<char>) -> nat {
    encode_utf8(s).len()
}

/// Registered hosts: duplicate-free, longest (in bytes) first.
pub open spec fn known_hosts_ok(known: Seq<Seq<char>>) -> bool {
    &&& known.no_duplicates()
    &&& forall|i: int, j: int|
        0 <= i < j < known.len() ==> byte_len(#[trigger] known[i]) >= byte_len(#[trigger] known[j])
}

/// Values that are never registered: shorter than two bytes, `localhost`,
/// or all ASCII digits.
pub open spec fn ignored_host(h: Seq<char>) -> bool {
    ||| byte_len(h) < 2
    ||| h == "localhost"@
    ||| all_digits(encode_utf8(h))
}

/// `known` with `h` placed after every entry at least as long as `h` (a
/// stable sort, longest first, of `known` followed by `h`).
pub open spec fn insert_by_len(known: Seq<Seq<char>>, h: Seq<char>) -> Seq<Seq<char>>
    decreases known.len(),
{
    if known.len() == 0 {
        seq![h]
    } else if byte_len(known.last()) < byte_len(h) {
        insert_by_len(known.drop_last(), h).push(known.last())
    } else {
        known.push(h)
    }
}

/// The registry after registering `host`: trimmed and lowercased, and added
/// unless it is ignored or already there.
pub open spec fn known_after_add(known: Seq<Seq<char>>, host: Seq<char>) -> Seq<Seq<char>> {
    let h = crate::text::unicode_lowercase(crate::text::trim_chars(host));
    if ignored_host(h) || known.contains(h) {
        known
    } else {
        insert_by_len(known, h)
    }
}

/// The escaped hosts joined by `|`.
pub open spec fn alternation(hosts: Seq<Seq<char>>) -> Seq<char>
    decreases hosts.len(),
{
    if hosts.len() == 0 {
        Seq::empty()
    } else if hosts.len() == 1 {
        regex_escaped(hosts[0])
    } else {
        alternation(hosts.drop_last()) + "|"@ + regex_escaped(hosts.last())
    }
}

/// The pattern matching any registered host as a whole word, ignoring case.
pub open spec fn known_host_pattern(hosts: Seq<Seq<char>>) -> Seq<char> {
    KNOWN_HOST_OPEN@ + alternation(hosts) + KNOWN_HOST_CLOSE@
}

/// Every whole-word occurrence of a registered host, as a hostname (none
/// while nothing is registered).
pub open spec fn known_host_hits(hosts: Seq<Seq<char>>, text: Seq<char>) -> Seq<RecognizerResult> {
    if hosts.len() == 0 {
        Seq::empty()
    } else {
        hits_of(
            regex_find_spans(known_host_pattern(hosts), text),
            tag_all_spec(EntityType::Hostname, KNOWN_HOST_SCORE),
        )
    }
}

/// Where the back-to-front scan for `h` stops.
pub open spec fn host_pos(known: Seq<Seq<char>>, h: Seq<char>) -> int
    decreases known.len(),
{
    if known.len() == 0 {
        0
    } else if byte_len(known.last()) < byte_len(h) {
        host_pos(known.drop_last(), h)
    } else {
        known.len() as int
    }
}

/// On a registry ordered longest first, `h` goes in after exactly the
/// entries at least as long as it.
pub proof fn lemma_insert_by_len(known: Seq<Seq<char>>, h: Seq<char>)
    requires
        known_hosts_ok(known),
    ensures
        0 <= host_pos(known, h) <= known.len(),
        insert_by_len(known, h) == known.insert(host_pos(known, h), h),
        forall|i: int| 0 <= i < host_pos(known, h) ==> byte_len(#[trigger] known[i]) >= byte_len(h),
        forall|i: int|
            host_pos(known, h) <= i < known.len() ==> byte_len(#[trigger] known[i]) < byte_len(h),
    decreases known.len(),
{
    if known.len() > 0 {
        let t = known.drop_last();
        assert(known_hosts_ok(t)) by {
            assert forall|i: int, j: int| 0 <= i < j < t.len() implies byte_len(#[trigger] t[i])
                >= byte_len(#[trigger] t[j]) by {
                assert(t[i] == known[i] && t[j] == known[j]);
            }
            assert forall|i: int, j: int| 0 <= i < t.len() && 0 <= j < t.len() && i != j implies t[i]
                != t[j] by {
                assert(t[i] == known[i] && t[j] == known[j]);
            }
        }
        lemma_insert_by_len(t, h);
        let p = host_pos(t, h);
        if byte_len(known.last()) < byte_len(h) {
            assert(t.insert(p, h).push(known.last()) =~= known.insert(p, h));
            assert forall|i: int| p <= i < known.len() implies byte_len(#[trigger] known[i])
                < byte_len(h) by {
                if i < t.len() {
                    assert(known[i] == t[i]);
                }
            }
            assert forall|i: int| 0 <= i < p implies byte_len(#[trigger] known[i]) >= byte_len(h) by {
                assert(known[i] == t[i]);
            }
        } else {
            assert(known.push(h) =~= known.insert(known.len() as int, h));
            assert forall|i: int| 0 <= i < known.len() implies byte_len(#[trigger] known[i])
                >= byte_len(h) by {
                if i < known.len() - 1 {
                    assert(byte_len(known[i]) >= byte_len(known[known.len() - 1]));
                }
            }
        }
    } else {
        assert(seq![h] =~= known.insert(0, h));
    }
}

/// Law: registering a new host keeps the registry duplicate-free and
/// ordered longest first, and adds exactly that host.
pub proof fn lemma_insert_by_len_ok(known: Seq<Seq<char>>, h: Seq<char>)
    requires
        known_hosts_ok(known),
        !known.contains(h),
    ensures
        known_hosts_ok(insert_by_len(known, h)),
        insert_by_len(known, h).len() == known.len() + 1,
        insert_by_len(known, h).contains(h),
        forall|x: Seq<char>| #[trigger]
            insert_by_len(known, h).contains(x) <==> (known.contains(x) || x == h),
{
    lemma_insert_by_len(known, h);
    let p = host_pos(known, h);
    let u = known.insert(p, h);
    assert(u[p] == h);
    assert forall|i: int, j: int| 0 <= i < j < u.len() implies byte_len(#[trigger] u[i]) >= byte_len(
        #[trigger] u[j],
    ) by {
        if j < p {
            assert(u[i] == known[i] && u[j] == known[j]);
        } else if j == p {
            assert(u[i] == known[i]);
        } else if i < p {
            assert(u[i] == known[i] && u[j] == known[j - 1]);
        } else if i == p {
            assert(u[j] == known[j - 1]);
        } else {
            assert(u[i] == known[i - 1] && u[j] == known[j - 1]);
        }
    }
    assert forall|i: int, j: int| 0 <= i < u.len() && 0 <= j < u.len() && i != j implies u[i] != u[j] by {
        if i != p && j != p {
            let ki = if i < p {
                i
            } else {
                i - 1
            };
            let kj = if j < p {
                j
            } else {
                j - 1
            };
            assert(u[i] == known[ki] && u[j] == known[kj]);
        } else if i == p {
            let kj = if j < p {
                j
            } else {
                j - 1
            };
            assert(u[j] == known[kj]);
        } else {
            let ki = if i < p {
                i
            } else {
                i - 1
            };
            assert(u[i] == known[ki]);
        }
    }
    assert forall|x: Seq<char>| #[trigger] u.contains(x) <==> (known.contains(x) || x == h) by {
        if u.contains(x) {
            let i = choose|i: int| 0 <= i < u.len() && u[i] == x;
            if i < p {
                assert(known[i] == x);
            } else if i > p {
                assert(known[i - 1] == x);
            }
        }
        if known.contains(x) {
            let i = choose|i: int| 0 <= i < known.len() && known[i] == x;
            if i < p {
                assert(u[i] == x);
            } else {
                assert(u[i + 1] == x);
            }
        }
    }
}

/// Law: registering a host a second time changes nothing.
pub proof fn lemma_known_after_add_idempotent(known: Seq<Seq<char>>, host: Seq<char>)
    requires
        known_hosts_ok(known),
    ensures
        known_after_add(known_after_add(known, host), host) == known_after_add(known, host),
{
    let h = crate::text::unicode_lowercase(crate::text::trim_chars(host));
    if !ignored_host(h) && !known.contains(h) {
        lemma_insert_by_len_ok(known, h);
    }
}

/// Every registered host is the lowercase form of some text.
pub open spec fn all_lowercased(known: Seq<Seq<char>>) -> bool {
    forall|i: int|
        #![trigger known[i]]
        0 <= i < known.len() ==> exists|t: Seq<char>| #[trigger] unicode_lowercase(t) == known[i]
}

/// Law: registering the lowercase form of a text keeps every registered
/// host lowercased.
pub proof fn lemma_insert_keeps_lowercased(known: Seq<Seq<char>>, t: Seq<char>)
    requires
        known_hosts_ok(known),
        all_lowercased(known),
        !known.contains(unicode_lowercase(t)),
    ensures
        all_lowercased(insert_by_len(known, unicode_lowercase(t))),
{
    let h = unicode_lowercase(t);
    lemma_insert_by_len_ok(known, h);
    let u = insert_by_len(known, h);
    assert forall|i: int|
        #![trigger u[i]]
        0 <= i < u.len() implies exists|s: Seq<char>| #[trigger] unicode_lowercase(s) == u[i] by {
        assert(u.contains(u[i]));
        if u[i] == h {
            assert(unicode_lowercase(t) == u[i]);
        } else {
            assert(known.contains(u[i]));
            let j = choose|j: int| 0 <= j < known.len() && known[j] == u[i];
            let s = choose|s: Seq<char>| #[trigger] unicode_lowercase(s) == known[j];
            assert(unicode_lowercase(s) == u[i]);
        }
    }
}

/// Law: whitespace around a host name, such as a trailing newline, does not
/// change what registering it does.
pub proof fn lemma_known_after_add_ignores_whitespace(known: Seq<Seq<char>>, host: Seq<char>, c: char)
    requires
        c == ' ' || c == '\t' || c == '\n' || c == '\r' || crate::text::is_whitespace(c),
    ensures
        known_after_add(known, host.push(c)) == known_after_add(known, host),
        known_after_add(known, seq![c] + host) == known_after_add(known, host),
{
    crate::text::lemma_ascii_whitespace(c);
    crate::text::lemma_trim_ignores_outer_whitespace(host, c);
}

/// Whether `h` is never registered.
pub fn is_ignored_host(h: &String) -> (r: bool)
    ensures
        r == ignored_host(h@),
{
    let b = h.as_str().as_bytes();
    if b.len() < 2 {
        return true;
    }
    let lh = "localhost".to_owned();
    if *h == lh {
        return true;
    }
    let mut i: usize = 0;
    while i < b.len()
        invariant
            i <= b@.len(),
            b@ == encode_utf8(h@),
            b@.len() >= 2,
            h@ != "localhost"@,
            forall|j: int| 0 <= j < i ==> is_digit(#[trigger] b@[j]),
        decreases b@.len() - i,
    {
        if !(48 <= b[i] && b[i] <= 57) {
            assert(!is_digit(encode_utf8(h@)[i as int]));
            return false;
        }
        i = i + 1;
    }
    true
}

/// Whether `h` is registered.
pub fn contains_host(known: &Vec<String>, h: &String) -> (r: bool)
    ensures
        r == names_view(known@).contains(h@),
{
    let ghost t = names_view(known@);
    let mut i: usize = 0;
    while i < known.len()
        invariant
            t == names_view(known@),
            i <= known@.len(),
            forall|j: int| 0 <= j < i ==> t[j] != h@,
        decreases known@.len() - i,
    {
        if known[i] == *h {
            assert(t[i as int] == h@);
            return true;
        }
        i = i + 1;
    }
    false
}

/// Registers a new host at its place in the longest-first order.
pub fn insert_host(known: &mut Vec<String>, h: String)
    requires
        known_hosts_ok(names_view(old(known)@)),
        !names_view(old(known)@).contains(h@),
    ensures
        names_view(final(known)@) == insert_by_len(names_view(old(known)@), h@),
        known_hosts_ok(names_view(final(known)@)),
{
    let ghost t = names_view(known@);
    let hl = h.as_str().as_bytes().len();
    let mut p: usize = known.len();
    assert(t.take(p as int) =~= t);
    while p > 0 && known[p - 1].as_str().as_bytes().len() < hl
        invariant
            t == names_view(known@),
            hl == byte_len(h@),
            p <= known@.len(),
            host_pos(t, h@) == host_pos(t.take(p as int), h@),
        decreases p,
    {
        assert(t.take(p as int).drop_last() =~= t.take(p - 1));
        assert(t.take(p as int).last() == t[p - 1]);
        p = p - 1;
    }
    proof {
        if p > 0 {
            assert(t.take(p as int).last() == t[p - 1]);
        }
        assert(host_pos(t.take(p as int), h@) == p);
        lemma_insert_by_len(t, h@);
        lemma_insert_by_len_ok(t, h@);
    }
    known.insert(p, h);
    assert(names_view(known@) =~= t.insert(p as int, h@));
}

/// The pattern matching any of `known` as a whole word, ignoring case.
pub fn build_pattern(known: &Vec<String>) -> (r: String)
    ensures
        r@ == known_host_pattern(names_view(known@)),
{
    let ghost t = names_view(known@);
    let mut alt = String::new();
    let mut i: usize = 0;
    while i < known.len()
        invariant
            t == names_view(known@),
            i <= known@.len(),
            alt@ == alternation(t.take(i as int)),
        decreases known@.len() - i,
    {
        assert(t.take(i + 1).drop_last() =~= t.take(i as int));
        assert(t.take(i + 1).last() == known@[i as int]@);
        let esc = escape(known[i].as_str());
        if i > 0 {
            alt.append("|");
        } else {
            assert(t.take(1)[0] == known@[0]@);
        }
        alt.append(esc.as_str());
        i = i + 1;
    }
    assert(t.take(known@.len() as int) =~= t);
    let mut out = String::new();
    out.append(KNOWN_HOST_OPEN);
    out.append(alt.as_str());
    out.append(KNOWN_HOST_CLOSE);
    out
}

} // verus!

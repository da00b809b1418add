//! IPv4 / IPv6 address recognizers. Detection only checks that a candidate
//! is address text; subnet-preserving anonymization happens in the engine.

use vstd::prelude::*;
use vstd::string::*;
use vstd::utf8::{encode_utf8_valid_utf8, encode_utf8};
use crate::bytes::{
    bytes_eq_ignore_case, eq_ignore_case, find_first_byte,
    find_last_byte, first_index_of, is_ascii_alnum, last_index_of, lemma_first_index_of,
    lemma_last_index_of,
};
use crate::bytes::{ascii_lower, ascii_lower_seq};
use crate::netaddr::{ipv4_text_value, ipv6_text_value, parse_ipv4, parse_ipv6, parse_u8, u8_text_value};
use crate::pattern::{find_spans, is_match_range, regex_find_spans};
use crate::text::{lemma_ascii_byte_is_boundary, lemma_whole_is_char_range, substr};
use super::{lemma_hits_satisfy, keeps_positions, lemma_hits_in_order, results_in_order, hits_of, results_in_text, tagged, EntityType, Recognizer, RecognizerResult};

verus! {

/// `/`, before a CIDR prefix length.
pub const SLASH: u8 = 47;

/// `%`, before an IPv6 zone.
pub const PERCENT: u8 = 37;

/// Dotted quad with an optional `/NN` CIDR suffix; octet range is checked
/// after matching.
pub const IPV4_PATTERN: &'static str = r"\b(?:\d{1,3}\.){3}\d{1,3}(?:/\d{1,2})?\b";

/// A run of hex groups and colons with at least two colons, an optional zone
/// (`%eth0`) and an optional `/NN`; address parsing rejects false positives
/// (MAC addresses among them).
pub const IPV6_PATTERN: &'static str = r"[A-Fa-f0-9]{0,4}(?::[A-Fa-f0-9]{0,4}){2,}(?:%[A-Za-z0-9_.-]+)?(?:/\d{1,3})?";

/// Words that mark a following dotted number as a version (compared
/// ignoring ASCII case).
pub const VERSION_WORD: &'static str = "version";

/// See [`VERSION_WORD`].
pub const RELEASE_WORD: &'static str = "release";

/// Where the address part of a candidate ends (before the last `/`), and the
/// prefix length written after that `/`, if it reads as a `u8`.
pub open spec fn prefix_split(m: Seq<u8>) -> (int, Option<u8>) {
    match last_index_of(m, SLASH) {
        Some(i) => (i, u8_text_value(m.subrange(i + 1, m.len() as int))),
        None => (m.len() as int, None),
    }
}

/// The address part of a candidate (everything before the last `/`).
pub open spec fn candidate_addr(m: Seq<u8>) -> Seq<u8> {
    m.subrange(0, prefix_split(m).0)
}

/// An IPv6 address without its `%zone` (everything before the first `%`).
pub open spec fn without_zone(a: Seq<u8>) -> Seq<u8> {
    match first_index_of(a, PERCENT) {
        Some(j) => a.subrange(0, j),
        None => a,
    }
}

/// Bytes stripped from the end of the text before a candidate when looking
/// for a version word.
pub open spec fn is_gap_byte(b: u8) -> bool {
    b == 32 || b == 58 || b == 61 || b == 9
}

/// Length of `s` once trailing spaces, `:`, `=` and tabs are removed.
pub open spec fn trimmed_len(s: Seq<u8>) -> int
    decreases s.len(),
{
    if s.len() == 0 {
        0
    } else if is_gap_byte(s.last()) {
        trimmed_len(s.drop_last())
    } else {
        s.len() as int
    }
}

/// Start of the run of ASCII letters and digits that ends at `end`.
pub open spec fn alnum_run_start(s: Seq<u8>, end: int) -> int
    decreases end,
{
    if end <= 0 || end > s.len() {
        if end > s.len() { end } else { 0 }
    } else if is_ascii_alnum(s[end - 1]) {
        alnum_run_start(s, end - 1)
    } else {
        end
    }
}

/// Whether the text before byte `start` ends with the word `version` or
/// `release` (any case), possibly followed by spaces, tabs, `:` or `=`.
pub open spec fn version_word_before(text: Seq<u8>, start: int) -> bool {
    let before = text.take(start);
    let e = trimmed_len(before);
    let w = alnum_run_start(before, e);
    let word = before.subrange(w, e);
    eq_ignore_case(word, VERSION_WORD.spec_bytes()) || eq_ignore_case(word, RELEASE_WORD.spec_bytes())
}

/// Gap bytes after a word do not count towards the trimmed length.
proof fn lemma_trimmed_len_after_gap(w: Seq<u8>, g: Seq<u8>)
    requires
        w.len() > 0,
        !is_gap_byte(w.last()),
        forall|i: int| 0 <= i < g.len() ==> (g[i] == 32 || g[i] == 9 || g[i] == 58 || g[i] == 61),
    ensures
        trimmed_len(w + g) == w.len(),
    decreases g.len(),
{
    if g.len() == 0 {
        assert(w + g =~= w);
        assert(w.drop_last().push(w.last()) =~= w);
    } else {
        let g0 = g.drop_last();
        assert((w + g).drop_last() =~= w + g0);
        assert((w + g).last() == g[g.len() - 1]);
        lemma_trimmed_len_after_gap(w, g0);
    }
}

/// Law (version numbers after a version word are not addresses): in a text
/// made of `w`, a run `g` of spaces, tabs, `:` and `=`, and then anything,
/// where `w` ends with the whole word `version` or `release` in any case, a
/// version word precedes the position after the run, so no IPv4 candidate
/// starting there is reported.
pub proof fn lemma_version_word_gap(w: Seq<u8>, g: Seq<u8>, d: Seq<u8>, start: usize)
    requires
        w.len() >= 7,
        ascii_lower_seq(w.subrange(w.len() - 7, w.len() as int)) == seq![118u8, 101, 114, 115, 105, 111, 110]
            || ascii_lower_seq(w.subrange(w.len() - 7, w.len() as int)) == seq![114u8, 101, 108, 101, 97, 115, 101],
        w.len() == 7 || !is_ascii_alnum(w[w.len() - 8]),
        forall|i: int| 0 <= i < g.len() ==> (g[i] == 32 || g[i] == 9 || g[i] == 58 || g[i] == 61),
        start == w.len() + g.len(),
    ensures
        version_word_before(w + g + d, start as int),
        forall|e: usize| #[trigger] ipv4_hit(w + g + d)((start, e)) is None,
{
    let text = w + g + d;
    let n = w.len() as int;
    let before = text.take(start as int);
    assert(before =~= w + g);
    let low = ascii_lower_seq(w.subrange(n - 7, n));
    assert forall|k: int| n - 7 <= k < n implies is_ascii_alnum(#[trigger] w[k]) by {
        assert(low[k - (n - 7)] == ascii_lower(w[k]));
    }
    assert(!is_gap_byte(w.last())) by {
        assert(is_ascii_alnum(w[n - 1]));
    }
    lemma_trimmed_len_after_gap(w, g);
    assert(trimmed_len(before) == n);
    assert forall|k: int| n - 7 <= k < n implies is_ascii_alnum(#[trigger] before[k]) by {
        assert(before[k] == w[k]);
    }
    if n > 7 {
        assert(before[n - 8] == w[n - 8]);
    }
    reveal_with_fuel(alnum_run_start, 9);
    assert(alnum_run_start(before, n) == n - 7);
    let word = before.subrange(n - 7, n);
    assert(word =~= w.subrange(n - 7, n));
    reveal_strlit("version");
    reveal_strlit("release");
    is_ascii_spec_bytes(VERSION_WORD);
    is_ascii_spec_bytes(RELEASE_WORD);
    assert(VERSION_WORD.spec_bytes() =~= seq![118u8, 101, 114, 115, 105, 111, 110]);
    assert(RELEASE_WORD.spec_bytes() =~= seq![114u8, 101, 108, 101, 97, 115, 101]);
    assert(ascii_lower_seq(seq![118u8, 101, 114, 115, 105, 111, 110]) =~= seq![118u8, 101, 114, 115, 105, 111, 110]);
    assert(ascii_lower_seq(seq![114u8, 101, 108, 101, 97, 115, 101]) =~= seq![114u8, 101, 108, 101, 97, 115, 101]);
}

/// An IPv4 candidate is kept when its address part is IPv4 text and no
/// version word precedes it.
pub open spec fn ipv4_hit(text: Seq<u8>) -> spec_fn((usize, usize)) -> Option<RecognizerResult> {
    |sp: (usize, usize)|
        if ipv4_text_value(candidate_addr(text.subrange(sp.0 as int, sp.1 as int))) is Some
            && !version_word_before(text, sp.0 as int) {
            Some(tagged(sp, EntityType::Ipv4, 90))
        } else {
            None
        }
}

/// An IPv6 candidate is kept when its address part, without zone, is IPv6
/// text.
pub open spec fn ipv6_hit(text: Seq<u8>) -> spec_fn((usize, usize)) -> Option<RecognizerResult> {
    |sp: (usize, usize)|
        if ipv6_text_value(without_zone(candidate_addr(text.subrange(sp.0 as int, sp.1 as int)))) is Some {
            Some(tagged(sp, EntityType::Ipv6, 90))
        } else {
            None
        }
}

pub open spec fn ipv4_hits(text: Seq<char>) -> Seq<RecognizerResult> {
    hits_of(regex_find_spans(IPV4_PATTERN@, text), ipv4_hit(encode_utf8(text)))
}

pub open spec fn ipv6_hits(text: Seq<char>) -> Seq<RecognizerResult> {
    hits_of(regex_find_spans(IPV6_PATTERN@, text), ipv6_hit(encode_utf8(text)))
}

/// Law: every IPv4 report is an `Ipv4` with score 90 whose address part is
/// IPv4 text and which no version word precedes.
pub proof fn lemma_ipv4_hits(text: Seq<char>)
    ensures
        forall|r: RecognizerResult| #[trigger] ipv4_hits(text).contains(r) ==> {
            &&& r.entity == EntityType::Ipv4
            &&& r.score == 90
            &&& ipv4_text_value(candidate_addr(encode_utf8(text).subrange(r.start as int, r.end as int))) is Some
            &&& !version_word_before(encode_utf8(text), r.start as int)
        },
{
    let tb = encode_utf8(text);
    let f = ipv4_hit(tb);
    let p = |r: RecognizerResult|
        {
            &&& r.entity == EntityType::Ipv4
            &&& r.score == 90
            &&& ipv4_text_value(candidate_addr(tb.subrange(r.start as int, r.end as int))) is Some
            &&& !version_word_before(tb, r.start as int)
        };
    assert(forall|sp: (usize, usize)| #[trigger] f(sp) matches Some(x) ==> p(x));
    match regex_find_spans(IPV4_PATTERN@, text) {
        Some(v) => lemma_hits_satisfy(v, f, p),
        None => {},
    }
}

/// Law: every IPv6 report is an `Ipv6` with score 90 whose address part,
/// without zone, is IPv6 text.
pub proof fn lemma_ipv6_hits(text: Seq<char>)
    ensures
        forall|r: RecognizerResult| #[trigger] ipv6_hits(text).contains(r) ==> {
            &&& r.entity == EntityType::Ipv6
            &&& r.score == 90
            &&& ipv6_text_value(
                without_zone(candidate_addr(encode_utf8(text).subrange(r.start as int, r.end as int))),
            ) is Some
        },
{
    let tb = encode_utf8(text);
    let f = ipv6_hit(tb);
    let p = |r: RecognizerResult|
        {
            &&& r.entity == EntityType::Ipv6
            &&& r.score == 90
            &&& ipv6_text_value(without_zone(candidate_addr(tb.subrange(r.start as int, r.end as int)))) is Some
        };
    assert(forall|sp: (usize, usize)| #[trigger] f(sp) matches Some(x) ==> p(x));
    match regex_find_spans(IPV6_PATTERN@, text) {
        Some(v) => lemma_hits_satisfy(v, f, p),
        None => {},
    }
}

/// Split an optional `/NN` CIDR suffix off a candidate; returns the address
/// part and the prefix length.
pub fn split_prefix(s: &str) -> (r: (&str, Option<u8>))
    ensures
        r.0.spec_bytes() == candidate_addr(s.spec_bytes()),
        r.1 == prefix_split(s.spec_bytes()).1,
{
    let b = s.as_bytes();
    let ghost sb = s.spec_bytes();
    assert(b@.subrange(0, b@.len() as int) =~= sb);
    proof {
        lemma_last_index_of(sb, SLASH);
        encode_utf8_valid_utf8(s@);
        lemma_whole_is_char_range(sb);
    }
    match find_last_byte(b, 0, b.len(), SLASH) {
        Some(i) => {
            proof {
                lemma_ascii_byte_is_boundary(sb, i as int);
            }
            let p = parse_u8(b, i + 1, b.len());
            (substr(s, 0, i), p)
        },
        None => (s, None),
    }
}

/// Strip an optional `%zone` scope id off an IPv6 candidate.
pub fn split_zone(s: &str) -> (r: &str)
    ensures
        r.spec_bytes() == without_zone(s.spec_bytes()),
{
    let b = s.as_bytes();
    let ghost sb = s.spec_bytes();
    assert(b@.subrange(0, b@.len() as int) =~= sb);
    proof {
        lemma_first_index_of(sb, PERCENT);
        encode_utf8_valid_utf8(s@);
        lemma_whole_is_char_range(sb);
    }
    let n = b.len();
    assert(b@.subrange(0, n as int) =~= sb);
    let fj = find_first_byte(b, 0, n, PERCENT);
    assert(match first_index_of(sb, PERCENT) { Some(q) => fj == Some(q as usize), None => fj is None });
    match fj {
        Some(j) => {
            assert(first_index_of(sb, PERCENT) == Some(j as int));
            assert(sb[j as int] == PERCENT);
            proof {
                lemma_ascii_byte_is_boundary(sb, j as int);
            }
            substr(s, 0, j)
        },
        None => s,
    }
}

/// Whether an IPv4 candidate at byte offset `start` is immediately preceded
/// by a version-context word (`version 2.14.0.1`, `release 1.2.3.4`), so
/// dotted version numbers in free text are treated as versions.
pub fn preceded_by_version_word(text: &str, start: usize) -> (r: bool)
    requires
        start <= text.spec_bytes().len(),
    ensures
        r == version_word_before(text.spec_bytes(), start as int),
{
    let b = text.as_bytes();
    let ghost before = text.spec_bytes().take(start as int);
    let mut e: usize = start;
    assert(before.take(start as int) =~= before);
    while e > 0 && (b[e - 1] == 32 || b[e - 1] == 58 || b[e - 1] == 61 || b[e - 1] == 9)
        invariant
            e <= start <= b@.len(),
            b@ == text.spec_bytes(),
            before == text.spec_bytes().take(start as int),
            trimmed_len(before) == trimmed_len(before.take(e as int)),
        decreases e,
    {
        assert(before.take(e as int).drop_last() =~= before.take(e - 1));
        e = e - 1;
    }
    proof {
        if e > 0 {
            assert(before.take(e as int).last() == b@[e - 1]);
        }
    }
    assert(trimmed_len(before) == e);
    let mut w: usize = e;
    while w > 0 && ((48 <= b[w - 1] && b[w - 1] <= 57) || (65 <= b[w - 1] && b[w - 1] <= 90) || (97
        <= b[w - 1] && b[w - 1] <= 122))
        invariant
            w <= e <= start <= b@.len(),
            b@ == text.spec_bytes(),
            before == text.spec_bytes().take(start as int),
            alnum_run_start(before, e as int) == alnum_run_start(before, w as int),
        decreases w,
    {
        assert(before[w - 1] == b@[w - 1]);
        w = w - 1;
    }
    proof {
        if w > 0 {
            assert(before[w - 1] == b@[w - 1]);
        }
    }
    assert(alnum_run_start(before, e as int) == w);
    assert(before.subrange(w as int, e as int) =~= b@.subrange(w as int, e as int));
    bytes_eq_ignore_case(b, w, e, VERSION_WORD.as_bytes()) || bytes_eq_ignore_case(
        b,
        w,
        e,
        RELEASE_WORD.as_bytes(),
    )
}

pub struct Ipv4Recognizer;

impl Ipv4Recognizer {
    pub fn new() -> (r: Self)
        ensures
            r == Ipv4Recognizer,
    {
        Ipv4Recognizer
    }
}

impl Recognizer for Ipv4Recognizer {
    fn recognize(&self, text: &str) -> (r: Vec<RecognizerResult>)
        ensures
            r@ == ipv4_hits(text@),
            results_in_text(r@, text@),
            results_in_order(r@),
    {
        let mut out: Vec<RecognizerResult> = Vec::new();
        let ghost tb = text.spec_bytes();
        let ghost f = ipv4_hit(tb);
        match find_spans(IPV4_PATTERN, text) {
            None => {},
            Some(v) => {
                let mut i: usize = 0;
                while i < v.len()
                    invariant
                        i <= v@.len(),
                        tb == text.spec_bytes(),
                        f == ipv4_hit(tb),
                        forall|j: int| 0 <= j < v@.len() ==> is_match_range(text@, #[trigger] v@[j]),
                        out@ == v@.take(i as int).filter_map(f),
                        results_in_text(out@, text@),
                    decreases v@.len() - i,
                {
                    proof {
                        v@.lemma_filter_map_take_succ(f, i as int);
                    }
                    let (s, e) = v[i];
                    assert(is_match_range(text@, v@[i as int]));
                    let m = substr(text, s, e);
                    let (a, _p) = split_prefix(m);
                    let ab = a.as_bytes();
                    assert(ab@.subrange(0, ab@.len() as int) =~= ab@);
                    if parse_ipv4(ab, 0, ab.len()).is_some() && !preceded_by_version_word(text, s) {
                        out.push(RecognizerResult::new(s, e, EntityType::Ipv4, 90));
                    }
                    i = i + 1;
                }
                assert(v@.take(v@.len() as int) =~= v@);
                proof {
                    assert(keeps_positions(f));
                    lemma_hits_in_order(v@, f);
                }
            },
        }
        out
    }
}

pub struct Ipv6Recognizer;

impl Ipv6Recognizer {
    pub fn new() -> (r: Self)
        ensures
            r == Ipv6Recognizer,
    {
        Ipv6Recognizer
    }
}

impl Recognizer for Ipv6Recognizer {
    fn recognize(&self, text: &str) -> (r: Vec<RecognizerResult>)
        ensures
            r@ == ipv6_hits(text@),
            results_in_text(r@, text@),
            results_in_order(r@),
    {
        let mut out: Vec<RecognizerResult> = Vec::new();
        let ghost tb = text.spec_bytes();
        let ghost f = ipv6_hit(tb);
        match find_spans(IPV6_PATTERN, text) {
            None => {},
            Some(v) => {
                let mut i: usize = 0;
                while i < v.len()
                    invariant
                        i <= v@.len(),
                        tb == text.spec_bytes(),
                        f == ipv6_hit(tb),
                        forall|j: int| 0 <= j < v@.len() ==> is_match_range(text@, #[trigger] v@[j]),
                        out@ == v@.take(i as int).filter_map(f),
                        results_in_text(out@, text@),
                    decreases v@.len() - i,
                {
                    proof {
                        v@.lemma_filter_map_take_succ(f, i as int);
                    }
                    let (s, e) = v[i];
                    assert(is_match_range(text@, v@[i as int]));
                    let m = substr(text, s, e);
                    let (a, _p) = split_prefix(m);
                    let core = split_zone(a);
                    let cb = core.as_bytes();
                    assert(cb@.subrange(0, cb@.len() as int) =~= cb@);
                    if parse_ipv6(cb, 0, cb.len()).is_some() {
                        out.push(RecognizerResult::new(s, e, EntityType::Ipv6, 90));
                    }
                    i = i + 1;
                }
                assert(v@.take(v@.len() as int) =~= v@);
                proof {
                    assert(keeps_positions(f));
                    lemma_hits_in_order(v@, f);
                }
            },
        }
        out
    }
}

} // verus!

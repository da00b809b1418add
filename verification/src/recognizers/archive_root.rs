//! Recognizes the hostname embedded in a sosreport / supportconfig archive
//! root directory (or the archive filename) and pseudonymizes it.
//!
//! sosreport directories look like `sosreport-<host>-<caseid>-<date>-<hash>`
//! and supportconfig directories like `scc_<host>_<date>_<time>` /
//! `nts_<host>_<date>_<time>`. That host token otherwise leaks on every
//! record's `source_path`, so it is scrubbed wherever it appears, also when
//! the host is an FQDN under a public domain (the full name still identifies
//! the machine).

use vstd::prelude::*;
use vstd::string::*;
use vstd::utf8::encode_utf8;
use crate::pattern::{group_spans, is_match_range, regex_group_spans};
use crate::text::{chars_in, substr};
use super::{lemma_hit_reported, lemma_hits_satisfy, concat_results, group_hits_of, results_in_text, tagged, EntityType, Recognizer, RecognizerResult};

verus! {

/// `sosreport-<host>-<digit…>` (case id / date follow the host).
pub const SOSREPORT_PATTERN: &'static str = r"\bsosreport-(?P<host>[A-Za-z0-9][A-Za-z0-9.-]*?)-\d";

/// `scc_<host>_<6-8 digit date>` / `nts_<host>_<date>`.
pub const SUPPORTCONFIG_PATTERN: &'static str = r"\b(?:scc|nts)_(?P<host>[A-Za-z0-9][A-Za-z0-9.-]*?)_\d{6,8}";

/// The capture group holding the host.
pub const HOST_GROUP: &'static str = "host";

/// A host capture of at least two bytes, reported as `Hostname` with score
/// 80 (above the generic FQDN recognizer).
pub open spec fn archive_host_hit() -> spec_fn(Option<(usize, usize)>) -> Option<RecognizerResult> {
    |g: Option<(usize, usize)>|
        match g {
            Some(sp) => if sp.1 >= sp.0 + 2 {
                Some(tagged(sp, EntityType::Hostname, 80))
            } else {
                None
            },
            None => None,
        }
}

pub open spec fn archive_root_hits(text: Seq<char>) -> Seq<RecognizerResult> {
    group_hits_of(regex_group_spans(SOSREPORT_PATTERN@, text, HOST_GROUP@), archive_host_hit())
        + group_hits_of(
        regex_group_spans(SUPPORTCONFIG_PATTERN@, text, HOST_GROUP@),
        archive_host_hit(),
    )
}

/// The shape of an archive-host report.
pub open spec fn archive_host_report(r: RecognizerResult) -> bool {
    r.entity == EntityType::Hostname && r.score == 80 && r.end >= r.start + 2
}

/// Law: every archive-root report is a `Hostname` with score 80 spanning at
/// least two bytes; and the host that `extract_archive_hostname` gives for a
/// text is reported on that text, at a span whose characters are that host.
pub proof fn lemma_archive_root_hits(text: Seq<char>)
    ensures
        forall|r: RecognizerResult| #[trigger]
            archive_root_hits(text).contains(r) ==> archive_host_report(r),
        archive_hostname(text) matches Some(h) ==> exists|r: RecognizerResult|
            #[trigger] archive_root_hits(text).contains(r) && chars_in(
                encode_utf8(text),
                r.start as int,
                r.end as int,
            ) == h,
{
    let f = archive_host_hit();
    let p = |r: RecognizerResult| archive_host_report(r);
    assert(forall|g: Option<(usize, usize)>| #[trigger] f(g) matches Some(x) ==> p(x));
    let fa = regex_group_spans(SOSREPORT_PATTERN@, text, HOST_GROUP@);
    let fb = regex_group_spans(SUPPORTCONFIG_PATTERN@, text, HOST_GROUP@);
    let ha = group_hits_of(fa, f);
    let hb = group_hits_of(fb, f);
    assert(archive_root_hits(text) == ha + hb);
    match fa {
        Some(v) => lemma_hits_satisfy(v, f, p),
        None => {},
    }
    match fb {
        Some(v) => lemma_hits_satisfy(v, f, p),
        None => {},
    }
    assert forall|r: RecognizerResult| #[trigger] (ha + hb).contains(r) implies archive_host_report(r) by {
        let k = choose|k: int| 0 <= k < (ha + hb).len() && (ha + hb)[k] == r;
        if k < ha.len() {
            assert(ha[k] == r);
            assert(ha.contains(r));
        } else {
            assert(hb[k - ha.len()] == r);
            assert(hb.contains(r));
        }
    }
    match archive_hostname(text) {
        Some(h) => {
            if first_host(fa, text) is Some {
                let v = fa->0;
                lemma_hit_reported(v, f, 0);
                let r = f(v[0])->0;
                assert(ha.contains(r));
                let k = choose|k: int| 0 <= k < ha.len() && ha[k] == r;
                assert((ha + hb)[k] == r);
                assert(archive_root_hits(text).contains(r));
            } else {
                let v = fb->0;
                lemma_hit_reported(v, f, 0);
                let r = f(v[0])->0;
                assert(hb.contains(r));
                let k = choose|k: int| 0 <= k < hb.len() && hb[k] == r;
                assert((ha + hb)[ha.len() + k] == r);
                assert(archive_root_hits(text).contains(r));
            }
        },
        None => {},
    }
}

/// The host of the first match of a capture search, when it is at least two
/// bytes long.
pub open spec fn first_host(found: Option<Seq<Option<(usize, usize)>>>, s: Seq<char>) -> Option<
    Seq<char>,
> {
    match found {
        Some(v) => if v.len() > 0 {
            match v[0] {
                Some(sp) => if sp.1 >= sp.0 + 2 {
                    Some(chars_in(encode_utf8(s), sp.0 as int, sp.1 as int))
                } else {
                    None
                },
                None => None,
            }
        } else {
            None
        },
        None => None,
    }
}

/// The archive host of `s`: from the sosreport pattern, else from the
/// supportconfig pattern.
pub open spec fn archive_hostname(s: Seq<char>) -> Option<Seq<char>> {
    match first_host(regex_group_spans(SOSREPORT_PATTERN@, s, HOST_GROUP@), s) {
        Some(h) => Some(h),
        None => first_host(regex_group_spans(SUPPORTCONFIG_PATTERN@, s, HOST_GROUP@), s),
    }
}

/// The result of a capture search, as a sequence.
pub open spec fn captures_view(found: Option<Vec<Option<(usize, usize)>>>) -> Option<Seq<Option<(usize, usize)>>> {
    match found {
        Some(v) => Some(v@),
        None => None,
    }
}

/// Every capture present in a search result is a match range of `text`.
pub open spec fn captures_in_text(found: Option<Vec<Option<(usize, usize)>>>, text: Seq<char>) -> bool {
    found matches Some(v) ==> forall|i: int|
        0 <= i < v@.len() ==> (#[trigger] v@[i] matches Some(sp) ==> is_match_range(text, sp))
}

/// The host of the first match of a capture search on `s`, when it is at
/// least two bytes long.
pub fn first_host_in(found: Option<Vec<Option<(usize, usize)>>>, s: &str) -> (r: Option<String>)
    requires
        captures_in_text(found, s@),
    ensures
        match r {
            Some(h) => first_host(captures_view(found), s@) == Some(h@),
            None => first_host(captures_view(found), s@) is None,
        },
{
    match found {
        Some(v) => {
            if v.len() > 0 {
                match v[0] {
                    Some((a, b)) => {
                        if b >= a && b - a >= 2 {
                            assert(v@[0] matches Some(sp) ==> is_match_range(s@, sp));
                            let h = substr(s, a, b);
                            return Some(h.to_owned());
                        }
                    },
                    None => {},
                }
            }
            None
        },
        None => None,
    }
}

/// The host of the first match of `pattern` in `s`, if it is at least two
/// bytes long.
fn first_host_of(pattern: &str, s: &str) -> (r: Option<String>)
    ensures
        match r {
            Some(h) => first_host(regex_group_spans(pattern@, s@, HOST_GROUP@), s@) == Some(h@),
            None => first_host(regex_group_spans(pattern@, s@, HOST_GROUP@), s@) is None,
        },
{
    first_host_in(group_spans(pattern, s, HOST_GROUP), s)
}

/// Extract the hostname from a sosreport/supportconfig archive filename or a
/// path whose root directory follows those conventions. Returns `None` when
/// the string does not match a known archive-root pattern.
pub fn extract_archive_hostname(s: &str) -> (r: Option<String>)
    ensures
        match r {
            Some(h) => archive_hostname(s@) == Some(h@),
            None => archive_hostname(s@) is None,
        },
{
    match first_host_of(SOSREPORT_PATTERN, s) {
        Some(h) => Some(h),
        None => first_host_of(SUPPORTCONFIG_PATTERN, s),
    }
}

/// The host captures of a capture search on `text`, each at least two bytes
/// long, reported as `Hostname` with score 80.
pub fn archive_host_reports(found: Option<Vec<Option<(usize, usize)>>>, Ghost(text): Ghost<Seq<char>>) -> (r: Vec<
    RecognizerResult,
>)
    requires
        captures_in_text(found, text),
    ensures
        r@ == group_hits_of(captures_view(found), archive_host_hit()),
        results_in_text(r@, text),
{
    let mut out: Vec<RecognizerResult> = Vec::new();
    let ghost f = archive_host_hit();
    match found {
        None => {},
        Some(v) => {
            let mut i: usize = 0;
            while i < v.len()
                invariant
                    i <= v@.len(),
                    f == archive_host_hit(),
                    forall|j: int|
                        0 <= j < v@.len() ==> (#[trigger] v@[j] matches Some(sp) ==> is_match_range(
                            text,
                            sp,
                        )),
                    out@ == v@.take(i as int).filter_map(f),
                    results_in_text(out@, text),
                decreases v@.len() - i,
            {
                proof {
                    v@.lemma_filter_map_take_succ(f, i as int);
                }
                match v[i] {
                    Some((a, b)) => {
                        assert(v@[i as int] matches Some(sp) ==> is_match_range(text, sp));
                        if b >= a && b - a >= 2 {
                            out.push(RecognizerResult::new(a, b, EntityType::Hostname, 80));
                        }
                    },
                    None => {},
                }
                i = i + 1;
            }
            assert(v@.take(v@.len() as int) =~= v@);
        },
    }
    out
}

/// Reports the host captures of one archive pattern.
fn host_captures(pattern: &str, text: &str) -> (r: Vec<RecognizerResult>)
    ensures
        r@ == group_hits_of(regex_group_spans(pattern@, text@, HOST_GROUP@), archive_host_hit()),
        results_in_text(r@, text@),
{
    archive_host_reports(group_spans(pattern, text, HOST_GROUP), Ghost(text@))
}

pub struct ArchiveRootRecognizer;

impl ArchiveRootRecognizer {
    pub fn new() -> (r: Self)
        ensures
            r == ArchiveRootRecognizer,
    {
        ArchiveRootRecognizer
    }
}

impl Recognizer for ArchiveRootRecognizer {
    fn recognize(&self, text: &str) -> (r: Vec<RecognizerResult>)
        ensures
            r@ == archive_root_hits(text@),
            results_in_text(r@, text@),
    {
        let a = host_captures(SOSREPORT_PATTERN, text);
        let b = host_captures(SUPPORTCONFIG_PATTERN, text);
        concat_results(a, b, Ghost(text@))
    }
}

} // verus!

//! Recognizers detect spans of sensitive data in text: each returns the byte
//! ranges it matched together with an [`EntityType`] and a confidence score.
//! The engine resolves overlaps and hands surviving spans to the token
//! formatting layer.

pub mod archive_root;
pub mod azure;
pub mod email;
pub mod guid;
pub mod hostname;
pub mod ip;
pub mod mac;
pub mod secret;

use vstd::prelude::*;
use crate::config::Config;
use crate::pattern::{is_match_range, spans_in_order};

verus! {

/// Categories of sensitive data this crate can detect and anonymize.
#[derive(Debug, Clone, Copy, PartialEq, Eq, Structural, Hash)]
pub enum EntityType {
    Ipv4,
    Ipv6,
    Mac,
    Guid,
    Email,
    Hostname,
    AzureResourceId,
    Secret,
}

/// Short stable label of each entity type.
pub open spec fn entity_label(e: EntityType) -> Seq<char> {
    match e {
        EntityType::Ipv4 => "IPv4"@,
        EntityType::Ipv6 => "IPv6"@,
        EntityType::Mac => "MAC"@,
        EntityType::Guid => "GUID"@,
        EntityType::Email => "EMAIL"@,
        EntityType::Hostname => "HOST"@,
        EntityType::AzureResourceId => "AZURE_ID"@,
        EntityType::Secret => "SECRET"@,
    }
}

impl EntityType {
    /// Short stable label used in emitted tokens (e.g. `Guid` -> `GUID`).
    pub fn label(self) -> (r: &'static str)
        ensures
            r@ == entity_label(self),
    {
        match self {
            EntityType::Ipv4 => "IPv4",
            EntityType::Ipv6 => "IPv6",
            EntityType::Mac => "MAC",
            EntityType::Guid => "GUID",
            EntityType::Email => "EMAIL",
            EntityType::Hostname => "HOST",
            EntityType::AzureResourceId => "AZURE_ID",
            EntityType::Secret => "SECRET",
        }
    }
}

/// A single detected span. `start`/`end` are byte offsets into the scanned
/// text (`end` exclusive). `score` is a confidence in percent (0 to 100)
/// used for overlap resolution.
#[derive(Debug, Clone, Copy, PartialEq, Eq, Structural)]
pub struct RecognizerResult {
    pub start: usize,
    pub end: usize,
    pub entity: EntityType,
    pub score: u32,
}

impl RecognizerResult {
    /// Length of the span in bytes (zero when `end` does not lie after
    /// `start`).
    pub open spec fn len_spec(self) -> nat {
        if self.end >= self.start {
            (self.end - self.start) as nat
        } else {
            0
        }
    }

    pub fn new(start: usize, end: usize, entity: EntityType, score: u32) -> (r: Self)
        ensures
            r == (RecognizerResult { start, end, entity, score }),
    {
        RecognizerResult { start, end, entity, score }
    }

    pub fn span_len(&self) -> (r: usize)
        ensures
            r == self.len_spec(),
    {
        if self.end >= self.start {
            self.end - self.start
        } else {
            0
        }
    }
}

/// A span reported as one entity with one score.
pub open spec fn tagged(sp: (usize, usize), entity: EntityType, score: u32) -> RecognizerResult {
    RecognizerResult { start: sp.0, end: sp.1, entity, score }
}

/// Every match of a search, reported as one entity with one score.
pub open spec fn tag_all_spec(entity: EntityType, score: u32) -> spec_fn((usize, usize)) -> Option<
    RecognizerResult,
> {
    |sp: (usize, usize)| Some(tagged(sp, entity, score))
}

/// The results a search yields through `f` (none when the pattern does not
/// compile).
pub open spec fn hits_of(
    found: Option<Seq<(usize, usize)>>,
    f: spec_fn((usize, usize)) -> Option<RecognizerResult>,
) -> Seq<RecognizerResult> {
    match found {
        Some(v) => v.filter_map(f),
        None => Seq::empty(),
    }
}

/// The results a capture search yields through `f`.
pub open spec fn group_hits_of(
    found: Option<Seq<Option<(usize, usize)>>>,
    f: spec_fn(Option<(usize, usize)>) -> Option<RecognizerResult>,
) -> Seq<RecognizerResult> {
    match found {
        Some(v) => v.filter_map(f),
        None => Seq::empty(),
    }
}

/// Results one after the other, none overlapping a later one.
pub open spec fn results_in_order(rs: Seq<RecognizerResult>) -> bool {
    forall|i: int, j: int| 0 <= i < j < rs.len() ==> (#[trigger] rs[i]).end <= (#[trigger] rs[j]).start
}

/// A report of a match keeps the match's byte range.
pub open spec fn keeps_positions(f: spec_fn((usize, usize)) -> Option<RecognizerResult>) -> bool {
    forall|sp: (usize, usize)| #[trigger] f(sp) matches Some(x) ==> x.start == sp.0 && x.end == sp.1
}

/// Reports that keep the byte ranges of matches in order are in order.
pub proof fn lemma_hits_in_order(v: Seq<(usize, usize)>, f: spec_fn((usize, usize)) -> Option<RecognizerResult>)
    requires
        spans_in_order(v),
        keeps_positions(f),
    ensures
        results_in_order(v.filter_map(f)),
    decreases v.len(),
{
    if v.len() > 0 {
        let rest = v.drop_last();
        assert(spans_in_order(rest)) by {
            assert forall|i: int, j: int| 0 <= i < j < rest.len() implies (#[trigger] rest[i]).1 <= (
            #[trigger] rest[j]).0 by {
                assert(rest[i] == v[i] && rest[j] == v[j]);
            }
        }
        lemma_hits_in_order(rest, f);
        let fr = rest.filter_map(f);
        match f(v.last()) {
            Some(x) => {
                let out = fr + seq![x];
                assert(v.filter_map(f) == out);
                assert forall|i: int, j: int| 0 <= i < j < out.len() implies (#[trigger] out[i]).end <= (
                #[trigger] out[j]).start by {
                    if j < fr.len() {
                        assert(out[i] == fr[i] && out[j] == fr[j]);
                    } else {
                        assert(out[i] == fr[i]);
                        assert(fr.contains(fr[i]));
                        rest.lemma_filter_map_contains(f, fr[i]);
                        let t = choose|t: (usize, usize)| #[trigger] rest.contains(t) && f(t) == Some(fr[i]);
                        let k = choose|k: int| 0 <= k < rest.len() && rest[k] == t;
                        assert(v[k] == t);
                        assert(v[v.len() - 1].0 == x.start);
                        assert(t.1 <= v[v.len() - 1].0);
                    }
                }
            },
            None => {},
        }
    }
}

/// A match that a report keeps shows up in the reports.
pub proof fn lemma_hit_reported<A>(v: Seq<A>, f: spec_fn(A) -> Option<RecognizerResult>, i: int)
    requires
        0 <= i < v.len(),
        f(v[i]) is Some,
    ensures
        v.filter_map(f).contains(f(v[i])->0),
    decreases v.len(),
{
    let x = f(v[i])->0;
    let rest = v.drop_last();
    if i == v.len() - 1 {
        let out = rest.filter_map(f) + seq![x];
        assert(v.filter_map(f) == out);
        assert(out[out.len() - 1] == x);
    } else {
        assert(rest[i] == v[i]);
        lemma_hit_reported(rest, f, i);
        let fr = rest.filter_map(f);
        let k = choose|k: int| 0 <= k < fr.len() && fr[k] == x;
        match f(v.last()) {
            Some(y) => {
                let out = fr + seq![y];
                assert(v.filter_map(f) == out);
                assert(out[k] == x);
            },
            None => {},
        }
    }
}

/// Every report satisfies `p` when every report `f` can make does.
pub proof fn lemma_hits_satisfy<A>(
    v: Seq<A>,
    f: spec_fn(A) -> Option<RecognizerResult>,
    p: spec_fn(RecognizerResult) -> bool,
)
    requires
        forall|a: A| #[trigger] f(a) matches Some(x) ==> p(x),
    ensures
        forall|x: RecognizerResult| #[trigger] v.filter_map(f).contains(x) ==> p(x),
{
    assert forall|x: RecognizerResult| #[trigger] v.filter_map(f).contains(x) implies p(x) by {
        v.lemma_filter_map_contains(f, x);
        let t = choose|t: A| #[trigger] v.contains(t) && f(t) == Some(x);
        assert(f(t) matches Some(y) ==> p(y));
    }
}

/// Every result is a match range of `text`.
pub open spec fn results_in_text(rs: Seq<RecognizerResult>, text: Seq<char>) -> bool {
    forall|i: int| 0 <= i < rs.len() ==> is_match_range(text, (#[trigger] rs[i].start, rs[i].end))
}

/// Reports every match of a search as `entity` with `score`.
pub fn tag_all(
    found: Option<Vec<(usize, usize)>>,
    entity: EntityType,
    score: u32,
    Ghost(text): Ghost<Seq<char>>,
) -> (r: Vec<RecognizerResult>)
    requires
        found matches Some(v) ==> forall|i: int|
            0 <= i < v@.len() ==> is_match_range(text, #[trigger] v@[i]),
    ensures
        r@ == hits_of(
            match found {
                Some(v) => Some(v@),
                None => None,
            },
            tag_all_spec(entity, score),
        ),
        results_in_text(r@, text),
        (found matches Some(v) && spans_in_order(v@)) ==> results_in_order(r@),
{
    let mut out: Vec<RecognizerResult> = Vec::new();
    match found {
        None => {},
        Some(v) => {
            let ghost f = tag_all_spec(entity, score);
            let mut i: usize = 0;
            while i < v.len()
                invariant
                    i <= v@.len(),
                    f == tag_all_spec(entity, score),
                    forall|j: int| 0 <= j < v@.len() ==> is_match_range(text, #[trigger] v@[j]),
                    out@ == v@.take(i as int).filter_map(f),
                    results_in_text(out@, text),
                decreases v@.len() - i,
            {
                proof {
                    v@.lemma_filter_map_take_succ(f, i as int);
                }
                let (s, e) = v[i];
                out.push(RecognizerResult::new(s, e, entity, score));
                i = i + 1;
            }
            assert(v@.take(v@.len() as int) =~= v@);
            proof {
                if spans_in_order(v@) {
                    lemma_hits_in_order(v@, f);
                }
            }
        },
    }
    out
}

/// Common interface for all detectors.
pub trait Recognizer {
    fn recognize(&self, text: &str) -> Vec<RecognizerResult>;
}

} // verus!

verus! {

/// Every present capture group of a search, reported as `entity` with
/// `score`.
pub open spec fn tag_groups_spec(entity: EntityType, score: u32) -> spec_fn(Option<(usize, usize)>) -> Option<
    RecognizerResult,
> {
    |g: Option<(usize, usize)>|
        match g {
            Some(sp) => Some(tagged(sp, entity, score)),
            None => None,
        }
}

/// Reports every present capture group of a search as `entity` with
/// `score`.
pub fn tag_groups(
    found: Option<Vec<Option<(usize, usize)>>>,
    entity: EntityType,
    score: u32,
    Ghost(text): Ghost<Seq<char>>,
) -> (r: Vec<RecognizerResult>)
    requires
        found matches Some(v) ==> forall|i: int|
            0 <= i < v@.len() ==> (#[trigger] v@[i] matches Some(sp) ==> is_match_range(text, sp)),
    ensures
        r@ == group_hits_of(
            match found {
                Some(v) => Some(v@),
                None => None,
            },
            tag_groups_spec(entity, score),
        ),
        results_in_text(r@, text),
{
    let mut out: Vec<RecognizerResult> = Vec::new();
    match found {
        None => {},
        Some(v) => {
            let ghost f = tag_groups_spec(entity, score);
            let mut i: usize = 0;
            while i < v.len()
                invariant
                    i <= v@.len(),
                    f == tag_groups_spec(entity, score),
                    forall|j: int|
                        0 <= j < v@.len() ==> (#[trigger] v@[j] matches Some(sp) ==> is_match_range(
                            text,
                            sp,
                        )),
                    out@ == v@.take(i as int).filter_map(f),
                    results_in_text(out@, text),
                decreases v@.len() - i,
            {
                proof {
                    v@.lemma_filter_map_take_succ(f, i as int);
                }
                match v[i] {
                    Some((s, e)) => {
                        assert(v@[i as int] matches Some(sp) ==> is_match_range(text, sp));
                        out.push(RecognizerResult::new(s, e, entity, score));
                    },
                    None => {},
                }
                i = i + 1;
            }
            assert(v@.take(v@.len() as int) =~= v@);
        },
    }
    out
}

/// Results of two searches, one after the other.
pub fn concat_results(a: Vec<RecognizerResult>, b: Vec<RecognizerResult>, Ghost(text): Ghost<Seq<char>>) -> (r: Vec<
    RecognizerResult,
>)
    requires
        results_in_text(a@, text),
        results_in_text(b@, text),
    ensures
        r@ == a@ + b@,
        results_in_text(r@, text),
{
    let mut out = a;
    let mut rest = b;
    out.append(&mut rest);
    assert forall|i: int| 0 <= i < out@.len() implies is_match_range(
        text,
        (#[trigger] out@[i].start, out@[i].end),
    ) by {
        if i >= a@.len() {
            assert(out@[i] == b@[i - a@.len()]);
        }
    }
    out
}

} // verus!

verus! {

/// The detectors the engine can run, in the order it runs them.
#[derive(Debug, Clone, Copy, PartialEq, Eq, Structural)]
pub enum RecognizerKind {
    Secret,
    AzureResourceId,
    Ipv4,
    Ipv6,
    Mac,
    Guid,
    Email,
    Hostname,
    ArchiveRoot,
}

/// `kinds` when `on`, nothing otherwise.
pub open spec fn when(on: bool, kinds: Seq<RecognizerKind>) -> Seq<RecognizerKind> {
    if on {
        kinds
    } else {
        Seq::empty()
    }
}

/// The detectors a configuration turns on, in order: secrets and Azure ids
/// first (their higher scores win over the generic ones they contain), then
/// IPv4 and IPv6, MAC, GUID, email, and hostnames with archive roots.
pub open spec fn active_recognizers(cfg: Config) -> Seq<RecognizerKind> {
    when(cfg.enable_secret, seq![RecognizerKind::Secret])
        + when(cfg.enable_azure, seq![RecognizerKind::AzureResourceId])
        + when(cfg.enable_ip, seq![RecognizerKind::Ipv4, RecognizerKind::Ipv6])
        + when(cfg.enable_mac, seq![RecognizerKind::Mac])
        + when(cfg.enable_guid, seq![RecognizerKind::Guid])
        + when(cfg.enable_email, seq![RecognizerKind::Email])
        + when(cfg.enable_hostname, seq![RecognizerKind::Hostname, RecognizerKind::ArchiveRoot])
}

/// What one detector reports on `text`.
pub open spec fn kind_hits(k: RecognizerKind, text: Seq<char>) -> Seq<RecognizerResult> {
    match k {
        RecognizerKind::Secret => secret::secret_hits(text),
        RecognizerKind::AzureResourceId => azure::azure_hits(text),
        RecognizerKind::Ipv4 => ip::ipv4_hits(text),
        RecognizerKind::Ipv6 => ip::ipv6_hits(text),
        RecognizerKind::Mac => mac::mac_hits(text),
        RecognizerKind::Guid => guid::guid_hits(text),
        RecognizerKind::Email => email::email_hits(text),
        RecognizerKind::Hostname => hostname::hostname_hits(text),
        RecognizerKind::ArchiveRoot => archive_root::archive_root_hits(text),
    }
}

/// Build the active recognizer set from configuration.
#[verifier::spinoff_prover]
#[verifier::rlimit(40)]
pub fn build_recognizers(cfg: &Config) -> (r: Vec<RecognizerKind>)
    ensures
        r@ == active_recognizers(*cfg),
{
    let mut v: Vec<RecognizerKind> = Vec::new();
    let ghost p1 = when(cfg.enable_secret, seq![RecognizerKind::Secret]);
    if cfg.enable_secret {
        v.push(RecognizerKind::Secret);
    }
    assert(v@ =~= p1);
    let ghost p2 = p1 + when(cfg.enable_azure, seq![RecognizerKind::AzureResourceId]);
    if cfg.enable_azure {
        v.push(RecognizerKind::AzureResourceId);
    }
    assert(v@ =~= p2);
    let ghost p3 = p2 + when(cfg.enable_ip, seq![RecognizerKind::Ipv4, RecognizerKind::Ipv6]);
    if cfg.enable_ip {
        v.push(RecognizerKind::Ipv4);
        v.push(RecognizerKind::Ipv6);
    }
    assert(v@ =~= p3);
    let ghost p4 = p3 + when(cfg.enable_mac, seq![RecognizerKind::Mac]);
    if cfg.enable_mac {
        v.push(RecognizerKind::Mac);
    }
    assert(v@ =~= p4);
    let ghost p5 = p4 + when(cfg.enable_guid, seq![RecognizerKind::Guid]);
    if cfg.enable_guid {
        v.push(RecognizerKind::Guid);
    }
    assert(v@ =~= p5);
    let ghost p6 = p5 + when(cfg.enable_email, seq![RecognizerKind::Email]);
    if cfg.enable_email {
        v.push(RecognizerKind::Email);
    }
    assert(v@ =~= p6);
    let ghost p7 = p6 + when(
        cfg.enable_hostname,
        seq![RecognizerKind::Hostname, RecognizerKind::ArchiveRoot],
    );
    if cfg.enable_hostname {
        v.push(RecognizerKind::Hostname);
        v.push(RecognizerKind::ArchiveRoot);
    }
    assert(v@ =~= p7);
    v
}

impl Recognizer for RecognizerKind {
    fn recognize(&self, text: &str) -> (r: Vec<RecognizerResult>)
        ensures
            r@ == kind_hits(*self, text@),
            results_in_text(r@, text@),
    {
        match self {
            RecognizerKind::Secret => secret::SecretRecognizer::new().recognize(text),
            RecognizerKind::AzureResourceId => azure::AzureResourceIdRecognizer::new().recognize(text),
            RecognizerKind::Ipv4 => ip::Ipv4Recognizer::new().recognize(text),
            RecognizerKind::Ipv6 => ip::Ipv6Recognizer::new().recognize(text),
            RecognizerKind::Mac => mac::MacRecognizer::new().recognize(text),
            RecognizerKind::Guid => guid::GuidRecognizer::new().recognize(text),
            RecognizerKind::Email => email::EmailRecognizer::new().recognize(text),
            RecognizerKind::Hostname => hostname::HostnameRecognizer::new().recognize(text),
            RecognizerKind::ArchiveRoot => archive_root::ArchiveRootRecognizer::new().recognize(text),
        }
    }
}

} // verus!

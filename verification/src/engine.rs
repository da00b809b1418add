//! The anonymization engine: recognizer orchestration, overlap resolution,
//! and the run-scoped mapping store that makes the output deterministic and
//! correlation-preserving.

use vstd::prelude::*;
use vstd::string::*;
use vstd::utf8::{decode_utf8, encode_utf8, encode_utf8_decode_utf8, encode_utf8_valid_utf8};
use crate::allowlist::{ipv4_allowlisted, ipv6_allowlisted, is_ipv4_allowlisted, is_ipv6_allowlisted};
use crate::bytes::{
    bytes_eq_ignore_case, contains_byte, eq_ignore_case, has_byte, lemma_split_ranges,
    split_ranges, split_ranges_in,
};
use crate::config::Config;
use crate::correlation::{lemma_hint_cidr_grows, lemma_scrub_spans_grows};
use crate::ip::{ipv4_network, ipv6_network, letters, network_value, subnet_letters};
use crate::netaddr::{ipv4_text_value, ipv6_text_value, parse_ipv4, parse_ipv6, COLON, DOT};
use crate::recognizers::ip::{candidate_addr, prefix_split, split_prefix, split_zone, without_zone, SLASH};
use crate::overlap::{lemma_resolve_keeps, resolve_overlaps, resolve_spec};
use crate::pattern::{find_spans, is_match_range};
use crate::recognizers::{
    active_recognizers, concat_results, kind_hits, results_in_text, tag_all, EntityType, Recognizer,
    RecognizerKind, RecognizerResult,
};
use crate::store::{empty_store, names_view, MappingStore, StoreView, SubnetKey};
use crate::known_hosts::{
    build_pattern, contains_host, insert_host, is_ignored_host, known_after_add, known_host_hits,
    known_host_pattern, known_hosts_ok, lemma_insert_by_len_ok, KNOWN_HOST_SCORE, all_lowercased,
    lemma_insert_keeps_lowercased,
};
use crate::strategy::{
    guid_shaped, ip_token, ip_token_text, is_guid, lettered_token, lettered_token_text, mac_token,
    mac_token_text, SECRET_TOKEN,
};
use crate::text::{
    chars_in, lemma_after_ascii_byte_is_boundary, lemma_ascii_byte_is_boundary,
    is_char_range, lemma_whole_is_char_range, substr, to_lowercase, trim, unicode_lowercase,
};

verus! {

/// `-`, the MAC group separator when there is no `:`.
pub const HYPHEN: u8 = 45;

/// The resource-id segment naming a resource group (compared ignoring
/// ASCII case).
pub const RESOURCE_GROUPS: &'static str = "resourceGroups";

/// `a`, capped at `cap`.
pub open spec fn capped(a: u8, cap: u8) -> u8 {
    if a < cap {
        a
    } else {
        cap
    }
}

/// Token for an IPv4 span: unchanged when it is not an address or is
/// allowlisted; otherwise its subnet label and host index, with any `/NN`
/// prefix kept (and recorded as the address's prefix).
pub open spec fn anon_ipv4_spec(cfg: Config, st: StoreView, m: Seq<char>) -> (StoreView, Seq<char>) {
    let b = encode_utf8(m);
    let p = prefix_split(b).1;
    match ipv4_text_value(candidate_addr(b)) {
        None => (st, m),
        Some(a) => if ipv4_allowlisted(a, cfg.extra_ipv4_allowlist@) {
            (st, m)
        } else {
            let key = a as u128;
            let st1 = match p {
                Some(pp) => st.with_hint(false, key, capped(pp, 32)),
                None => st,
            };
            let chosen = match p {
                Some(pp) => pp,
                None => match st1.hint_for(false, key) {
                    Some(h) => h,
                    None => cfg.ipv4_default_prefix,
                },
            };
            let prefix = capped(chosen, 32);
            let net = network_value(a as nat, 32, prefix as nat);
            let (st2, label) = st1.subnet_label(
                SubnetKey { v6: false, network: net as u128, prefix },
            );
            let (st3, host) = st2.host_index(label, key);
            (st3, ip_token_text("IPv4"@, letters(label), host, p))
        },
    }
}

/// Token for an IPv6 span, as for IPv4 (the `%zone` is ignored, prefixes
/// are capped at 128).
pub open spec fn anon_ipv6_spec(cfg: Config, st: StoreView, m: Seq<char>) -> (StoreView, Seq<char>) {
    let b = encode_utf8(m);
    let p = prefix_split(b).1;
    match ipv6_text_value(without_zone(candidate_addr(b))) {
        None => (st, m),
        Some(a) => if ipv6_allowlisted(a) {
            (st, m)
        } else {
            let st1 = match p {
                Some(pp) => st.with_hint(true, a, capped(pp, 128)),
                None => st,
            };
            let chosen = match p {
                Some(pp) => pp,
                None => match st1.hint_for(true, a) {
                    Some(h) => h,
                    None => cfg.ipv6_default_prefix,
                },
            };
            let prefix = capped(chosen, 128);
            let net = network_value(a as nat, 128, prefix as nat);
            let (st2, label) = st1.subnet_label(SubnetKey { v6: true, network: net as u128, prefix });
            let (st3, host) = st2.host_index(label, a);
            (st3, ip_token_text("IPv6"@, letters(label), host, p))
        },
    }
}

/// Token for a MAC span: the text up to the end of its third group (the OUI)
/// is kept, the device gets an index within its OUI.
pub open spec fn anon_mac_spec(st: StoreView, m: Seq<char>) -> (StoreView, Seq<char>) {
    let b = encode_utf8(m);
    let sep: u8 = if has_byte(b, COLON) {
        COLON
    } else {
        HYPHEN
    };
    let r = split_ranges(b, sep);
    if r.len() != 6 {
        (st, m)
    } else {
        let oui = chars_in(b, 0, r[2].1);
        let (st2, idx) = st.mac_index(unicode_lowercase(oui), unicode_lowercase(m));
        (st2, mac_token_text(oui, idx))
    }
}

/// Letter-labeled pseudonym token (e.g. `[[GUID-A]]`, `[[HOST-B]]`).
pub open spec fn pseudonym_token_spec(st: StoreView, entity: EntityType, label: Seq<char>, value: Seq<char>) -> (
    StoreView,
    Seq<char>,
) {
    let (st2, idx) = st.pseudonym(entity, value);
    (st2, lettered_token_text(label, letters((idx - 1) as nat)))
}

/// Letter-labeled token for an Azure resource / resource-group name.
pub open spec fn azure_name_token_spec(st: StoreView, name: Seq<char>) -> (StoreView, Seq<char>) {
    let (st2, idx) = st.azure_name(name);
    (st2, lettered_token_text("AZURE_NAME"@, letters((idx - 1) as nat)))
}

/// The `i`-th `/`-separated segment (empty outside the id).
pub open spec fn segment(b: Seq<u8>, r: Seq<(int, int)>, i: int) -> Seq<u8> {
    if 0 <= i < r.len() {
        b.subrange(r[i].0, r[i].1)
    } else {
        Seq::empty()
    }
}

/// One segment of an ARM resource id: GUIDs get GUID pseudonyms, the segment
/// after `resourceGroups` and instance names (after a provider namespace and
/// a resource type) get Azure-name pseudonyms, the rest is kept.
pub open spec fn azure_segment_spec(st: StoreView, seg: Seq<u8>, prev: Seq<u8>, prev2: Seq<u8>) -> (
    StoreView,
    Seq<char>,
) {
    let c = decode_utf8(seg);
    if seg.len() == 0 {
        (st, Seq::empty())
    } else if guid_shaped(c) {
        pseudonym_token_spec(st, EntityType::Guid, "GUID"@, unicode_lowercase(c))
    } else if eq_ignore_case(prev, RESOURCE_GROUPS.spec_bytes()) {
        azure_name_token_spec(st, unicode_lowercase(c))
    } else if has_byte(prev2, DOT) && !has_byte(prev, DOT) {
        azure_name_token_spec(st, unicode_lowercase(c))
    } else {
        (st, c)
    }
}

/// The first `k` segments of a resource id, scrubbed and joined by `/`.
pub open spec fn azure_fold(st: StoreView, b: Seq<u8>, r: Seq<(int, int)>, k: nat) -> (
    StoreView,
    Seq<char>,
)
    decreases k,
{
    if k == 0 {
        (st, Seq::empty())
    } else {
        let (s1, out) = azure_fold(st, b, r, (k - 1) as nat);
        let i = k - 1;
        let (s2, piece) = azure_segment_spec(
            s1,
            segment(b, r, i),
            segment(b, r, i - 1),
            segment(b, r, i - 2),
        );
        (s2, if i == 0 {
            piece
        } else {
            out + "/"@ + piece
        })
    }
}

/// Structural scrub of an ARM resource id: the provider/type skeleton is
/// kept; the subscription GUID, resource-group name and instance names are
/// replaced.
pub open spec fn anon_azure_spec(st: StoreView, m: Seq<char>) -> (StoreView, Seq<char>) {
    let b = encode_utf8(m);
    let r = split_ranges(b, SLASH);
    azure_fold(st, b, r, r.len())
}

/// The replacement for one recognized span of type `entity`.
pub open spec fn apply_spec(cfg: Config, st: StoreView, entity: EntityType, m: Seq<char>) -> (
    StoreView,
    Seq<char>,
) {
    match entity {
        EntityType::Ipv4 => anon_ipv4_spec(cfg, st, m),
        EntityType::Ipv6 => anon_ipv6_spec(cfg, st, m),
        EntityType::Mac => anon_mac_spec(st, m),
        EntityType::Guid => pseudonym_token_spec(st, EntityType::Guid, "GUID"@, unicode_lowercase(m)),
        EntityType::Email => pseudonym_token_spec(st, EntityType::Email, "EMAIL"@, unicode_lowercase(m)),
        EntityType::Hostname => pseudonym_token_spec(
            st,
            EntityType::Hostname,
            "HOST"@,
            unicode_lowercase(m),
        ),
        EntityType::AzureResourceId => anon_azure_spec(st, m),
        EntityType::Secret => (st, SECRET_TOKEN@),
    }
}

/// What the detectors `kinds` report on `text`, one detector after the
/// other.
pub open spec fn all_kind_hits(kinds: Seq<RecognizerKind>, text: Seq<char>) -> Seq<RecognizerResult>
    decreases kinds.len(),
{
    if kinds.len() == 0 {
        Seq::empty()
    } else {
        all_kind_hits(kinds.drop_last(), text) + kind_hits(kinds.last(), text)
    }
}

/// Everything detected in `text`: what the configured detectors report,
/// then the whole-word occurrences of registered hosts.
pub open spec fn recognize_all_spec(cfg: Config, known: Seq<Seq<char>>, text: Seq<char>) -> Seq<
    RecognizerResult,
> {
    all_kind_hits(active_recognizers(cfg), text) + known_host_hits(known, text)
}

/// Replacing the first `k` of `spans` in order: the store, the output so
/// far and the byte offset up to which `text` has been consumed. A span
/// that starts before that offset is skipped; otherwise the text before it
/// is copied and the span replaced.
pub open spec fn scrub_fold(
    cfg: Config,
    st: StoreView,
    text: Seq<char>,
    spans: Seq<RecognizerResult>,
    k: nat,
) -> (StoreView, Seq<char>, int)
    decreases k,
{
    if k == 0 {
        (st, Seq::empty(), 0)
    } else {
        let (s1, out, cur) = scrub_fold(cfg, st, text, spans, (k - 1) as nat);
        let sp = spans[k - 1];
        if sp.start < cur {
            (s1, out, cur)
        } else {
            let b = encode_utf8(text);
            let (s2, rep) = apply_spec(cfg, s1, sp.entity, chars_in(b, sp.start as int, sp.end as int));
            (s2, out + chars_in(b, cur, sp.start as int) + rep, sp.end as int)
        }
    }
}

/// `text` with each of `spans` (ordered, non-overlapping) replaced.
pub open spec fn emit_spec(cfg: Config, st: StoreView, text: Seq<char>, spans: Seq<RecognizerResult>) -> (
    StoreView,
    Seq<char>,
) {
    let b = encode_utf8(text);
    let (s1, out, cur) = scrub_fold(cfg, st, text, spans, spans.len());
    (s1, out + chars_in(b, cur, b.len() as int))
}

/// `text` scrubbed, given what was detected in it: overlaps are resolved,
/// then each surviving span is replaced.
pub open spec fn scrub_spans_spec(
    cfg: Config,
    st: StoreView,
    text: Seq<char>,
    found: Seq<RecognizerResult>,
) -> (StoreView, Seq<char>) {
    emit_spec(cfg, st, text, resolve_spec(found))
}

/// `text` scrubbed: detection, overlap resolution, replacement.
pub open spec fn scrub_spec(cfg: Config, st: StoreView, known: Seq<Seq<char>>, text: Seq<char>) -> (
    StoreView,
    Seq<char>,
) {
    scrub_spans_spec(cfg, st, text, recognize_all_spec(cfg, known, text))
}

/// The store after `hint_cidr(ip, prefix)`: the prefix (capped at the
/// address width) recorded for the address, if `ip` is one.
pub open spec fn hint_cidr_spec(st: StoreView, ip: Seq<char>, prefix: u8) -> StoreView {
    let b = encode_utf8(ip);
    match ipv4_text_value(b) {
        Some(a) => st.with_hint(false, a as u128, capped(prefix, 32)),
        None => match ipv6_text_value(b) {
            Some(a) => st.with_hint(true, a, capped(prefix, 128)),
            None => st,
        },
    }
}

/// Pieces joined by `/`.
pub open spec fn slash_join(pieces: Seq<Seq<char>>) -> Seq<char>
    decreases pieces.len(),
{
    if pieces.len() == 0 {
        Seq::empty()
    } else if pieces.len() == 1 {
        pieces[0]
    } else {
        slash_join(pieces.drop_last()) + "/"@ + pieces.last()
    }
}

/// The scrubbed form of each of the first `k` segments of a resource id.
pub open spec fn azure_pieces(st: StoreView, b: Seq<u8>, r: Seq<(int, int)>, k: nat) -> Seq<Seq<char>>
    decreases k,
{
    if k == 0 {
        Seq::empty()
    } else {
        let i = k - 1;
        azure_pieces(st, b, r, (k - 1) as nat).push(
            azure_segment_spec(
                azure_fold(st, b, r, (k - 1) as nat).0,
                segment(b, r, i),
                segment(b, r, i - 1),
                segment(b, r, i - 2),
            ).1,
        )
    }
}

/// How one segment `seg` of a resource id (after `prev`, after `prev2`) is
/// scrubbed into `piece`: empty stays empty; a GUID becomes a `GUID` token;
/// the segment after `resourceGroups`, and an instance name (after a provider
/// namespace and a resource type), become `AZURE_NAME` tokens; any other
/// segment is kept.
pub open spec fn azure_piece_ok(seg: Seq<u8>, prev: Seq<u8>, prev2: Seq<u8>, piece: Seq<char>) -> bool {
    let c = decode_utf8(seg);
    if seg.len() == 0 {
        piece == Seq::<char>::empty()
    } else if guid_shaped(c) {
        exists|l: Seq<char>| piece == #[trigger] lettered_token_text("GUID"@, l)
    } else if eq_ignore_case(prev, RESOURCE_GROUPS.spec_bytes()) || (has_byte(prev2, DOT) && !has_byte(
        prev,
        DOT,
    )) {
        exists|l: Seq<char>| piece == #[trigger] lettered_token_text("AZURE_NAME"@, l)
    } else {
        piece == c
    }
}

proof fn lemma_azure_pieces(st: StoreView, b: Seq<u8>, r: Seq<(int, int)>, k: nat)
    ensures
        azure_pieces(st, b, r, k).len() == k,
        azure_fold(st, b, r, k).1 == slash_join(azure_pieces(st, b, r, k)),
        forall|i: int|
            0 <= i < k ==> #[trigger] azure_pieces(st, b, r, k)[i] == azure_segment_spec(
                azure_fold(st, b, r, i as nat).0,
                segment(b, r, i),
                segment(b, r, i - 1),
                segment(b, r, i - 2),
            ).1,
    decreases k,
{
    if k > 0 {
        lemma_azure_pieces(st, b, r, (k - 1) as nat);
        let p0 = azure_pieces(st, b, r, (k - 1) as nat);
        let p = azure_pieces(st, b, r, k);
        assert(p.drop_last() =~= p0);
        assert forall|i: int| 0 <= i < k implies #[trigger] p[i] == azure_segment_spec(
            azure_fold(st, b, r, i as nat).0,
            segment(b, r, i),
            segment(b, r, i - 1),
            segment(b, r, i - 2),
        ).1 by {
            if i < k - 1 {
                assert(p[i] == p0[i]);
            }
        }
    }
}

/// Law (structure of a scrubbed resource id): the result is the id's
/// `/`-separated segments, each scrubbed on its own and joined by `/` again:
/// empty segments stay empty, GUIDs become `GUID` tokens, resource-group and
/// instance names become `AZURE_NAME` tokens, and every other segment (the
/// provider/type skeleton) is kept.
pub proof fn lemma_anon_azure_segments(st: StoreView, m: Seq<char>)
    ensures
        ({
            let b = encode_utf8(m);
            let r = split_ranges(b, SLASH);
            let pieces = azure_pieces(st, b, r, r.len());
            &&& pieces.len() == r.len()
            &&& anon_azure_spec(st, m).1 == slash_join(pieces)
            &&& forall|i: int|
                0 <= i < r.len() ==> azure_piece_ok(
                    segment(b, r, i),
                    segment(b, r, i - 1),
                    segment(b, r, i - 2),
                    #[trigger] pieces[i],
                )
        }),
{
    let b = encode_utf8(m);
    let r = split_ranges(b, SLASH);
    let pieces = azure_pieces(st, b, r, r.len());
    lemma_azure_pieces(st, b, r, r.len());
    assert forall|i: int| 0 <= i < r.len() implies azure_piece_ok(
        segment(b, r, i),
        segment(b, r, i - 1),
        segment(b, r, i - 2),
        #[trigger] pieces[i],
    ) by {
        let s1 = azure_fold(st, b, r, i as nat).0;
        let seg = segment(b, r, i);
        let c = decode_utf8(seg);
        let lc = unicode_lowercase(c);
        if seg.len() > 0 && guid_shaped(c) {
            let idx = s1.pseudonym(EntityType::Guid, lc).1;
            assert(pieces[i] == lettered_token_text("GUID"@, letters((idx - 1) as nat)));
        } else if seg.len() > 0 {
            let idx = s1.azure_name(lc).1;
            assert(azure_name_token_spec(s1, lc).1 == lettered_token_text(
                "AZURE_NAME"@,
                letters((idx - 1) as nat),
            ));
        }
    }
}

/// Law: when nothing is detected, scrubbing gives the text back unchanged
/// and records nothing.
pub proof fn lemma_nothing_found_keeps_text(cfg: Config, st: StoreView, text: Seq<char>)
    ensures
        scrub_spans_spec(cfg, st, text, Seq::empty()) == (st, text),
{
    let e = Seq::<RecognizerResult>::empty();
    assert(crate::overlap::sort_ranked(e) == e);
    assert(resolve_spec(e) =~= e);
    let b = encode_utf8(text);
    assert(b.subrange(0, b.len() as int) =~= b);
    encode_utf8_decode_utf8(text);
    assert(Seq::<char>::empty() + chars_in(b, 0, b.len() as int) =~= text);
}

/// Law (built-in addresses are kept): an IPv4 span whose address is
/// `0.0.0.0`, `255.255.255.255`, a loopback `127.x.y.z`, IMDS
/// `169.254.169.254` or WireServer `168.63.129.16` is left verbatim and
/// nothing is recorded for it, whatever the configuration.
pub proof fn lemma_builtin_ipv4_kept(cfg: Config, st: StoreView, m: Seq<char>, a: u32)
    requires
        ipv4_text_value(candidate_addr(encode_utf8(m))) == Some(a),
        a == 0 || a == 0xFFFF_FFFF || a == 0xA9FE_A9FE || a == 0xA83F_8110 || (0x7F00_0000 <= a
            <= 0x7FFF_FFFF),
    ensures
        apply_spec(cfg, st, EntityType::Ipv4, m) == (st, m),
{
    crate::allowlist::lemma_builtin_ipv4_allowlist(cfg.extra_ipv4_allowlist@, a);
}

/// Law (one GUID table): a GUID segment of a resource id is replaced by
/// exactly the token, and leaves exactly the store, that a GUID span with the
/// same text standing alone would; so a GUID keeps one token whether it
/// appears alone or inside ids, and different GUIDs never share one.
pub proof fn lemma_azure_guid_segment_is_guid_token(
    cfg: Config,
    st: StoreView,
    seg: Seq<u8>,
    prev: Seq<u8>,
    prev2: Seq<u8>,
)
    requires
        seg.len() > 0,
        guid_shaped(decode_utf8(seg)),
    ensures
        azure_segment_spec(st, seg, prev, prev2) == apply_spec(cfg, st, EntityType::Guid, decode_utf8(seg)),
{
}

/// Law: allowlisted IPv4 addresses (loopback, `0.0.0.0`, broadcast, the
/// Azure IMDS and WireServer addresses, the configured extras) are left
/// verbatim, and nothing is recorded for them.
pub proof fn lemma_allowlisted_ipv4_kept(cfg: Config, st: StoreView, m: Seq<char>)
    requires
        ipv4_text_value(candidate_addr(encode_utf8(m))) matches Some(a) && ipv4_allowlisted(
            a,
            cfg.extra_ipv4_allowlist@,
        ),
    ensures
        apply_spec(cfg, st, EntityType::Ipv4, m) == (st, m),
{
}

/// Law: allowlisted IPv6 addresses (`::1`, `::`) are left verbatim, and
/// nothing is recorded for them.
pub proof fn lemma_allowlisted_ipv6_kept(cfg: Config, st: StoreView, m: Seq<char>)
    requires
        ipv6_text_value(without_zone(candidate_addr(encode_utf8(m)))) matches Some(a)
            && ipv6_allowlisted(a),
    ensures
        apply_spec(cfg, st, EntityType::Ipv6, m) == (st, m),
{
}

/// Law (fail-safe secrets): a secret is always replaced by the full
/// redaction token, whatever it holds, and nothing is recorded for it.
pub proof fn lemma_secret_redacted(cfg: Config, st: StoreView, m: Seq<char>)
    ensures
        apply_spec(cfg, st, EntityType::Secret, m) == (st, SECRET_TOKEN@),
{
}

} // verus!

verus! {

/// Exec byte ranges that are exactly the spec ranges `sr`.
pub open spec fn ranges_match(ranges: Seq<(usize, usize)>, sr: Seq<(int, int)>) -> bool {
    &&& ranges.len() == sr.len()
    &&& forall|k: int|
        0 <= k < ranges.len() ==> (#[trigger] ranges[k]).0 == sr[k].0 && ranges[k].1 == sr[k].1
}

/// The public anonymizer. Construct with [`Anonymizer::new`], optionally
/// seed known CIDRs with [`Anonymizer::hint_cidr`], then scrub text or JSON.
pub struct Anonymizer {
    cfg: Config,
    recognizers: Vec<RecognizerKind>,
    store: MappingStore,
    known_hosts: Vec<String>,
    /// The pattern matching any registered host, once one is registered.
    known_host_re: Option<String>,
}

impl Anonymizer {
    /// The configuration the anonymizer was built with.
    pub closed spec fn config(&self) -> Config {
        self.cfg
    }

    /// The mappings assigned so far.
    pub closed spec fn store_view(&self) -> StoreView {
        self.store@
    }

    /// Registered hostnames (lowercased, longest first).
    pub closed spec fn known_hosts(&self) -> Seq<Seq<char>> {
        names_view(self.known_hosts@)
    }

    /// Internal consistency, established by `new` and kept by every method.
    pub closed spec fn wf(&self) -> bool {
        &&& self.store@.wf()
        &&& self.recognizers@ == active_recognizers(self.cfg)
        &&& known_hosts_ok(self.known_hosts())
        &&& all_lowercased(self.known_hosts())
        &&& match self.known_host_re {
            None => self.known_hosts().len() == 0,
            Some(p) => self.known_hosts().len() > 0 && p@ == known_host_pattern(self.known_hosts()),
        }
    }

    /// A well-formed anonymizer holds a well-formed store and a well-formed
    /// host registry.
    pub proof fn lemma_wf_parts(&self)
        requires
            self.wf(),
        ensures
            self.store_view().wf(),
            known_hosts_ok(self.known_hosts()),
            all_lowercased(self.known_hosts()),
    {
    }

    /// Same configuration, detectors and registered hosts as `other`.
    spec fn same_setup(&self, other: &Anonymizer) -> bool {
        &&& self.cfg == other.cfg
        &&& self.recognizers == other.recognizers
        &&& self.known_hosts == other.known_hosts
        &&& self.known_host_re == other.known_host_re
    }

    /// Build an anonymizer with the given configuration.
    pub fn new(cfg: Config) -> (r: Self)
        ensures
            r.wf(),
            r.config() == cfg,
            r.store_view() == empty_store(),
            r.known_hosts() == Seq::<Seq<char>>::empty(),
    {
        let recognizers = crate::recognizers::build_recognizers(&cfg);
        let r = Anonymizer { cfg, recognizers, store: MappingStore::new(), known_hosts: Vec::new(),
            known_host_re: None,
        };
        assert(r.known_hosts() =~= Seq::<Seq<char>>::empty());
        r
    }

    /// Apply the type-appropriate strategy to one matched span.
    fn apply(&mut self, entity: EntityType, matched: &str) -> (r: String)
        requires
            old(self).wf(),
        ensures
            final(self).wf(),
            final(self).same_setup(old(self)),
            (final(self).store@, r@) == apply_spec(old(self).cfg, old(self).store@, entity, matched@),
    {
        match entity {
            EntityType::Ipv4 => self.anon_ipv4(matched),
            EntityType::Ipv6 => self.anon_ipv6(matched),
            EntityType::Mac => self.anon_mac(matched),
            EntityType::Guid => {
                let v = to_lowercase(matched);
                self.pseudonym_token(EntityType::Guid, "GUID", v.as_str())
            },
            EntityType::Email => {
                let v = to_lowercase(matched);
                self.pseudonym_token(EntityType::Email, "EMAIL", v.as_str())
            },
            EntityType::Hostname => {
                let v = to_lowercase(matched);
                self.pseudonym_token(EntityType::Hostname, "HOST", v.as_str())
            },
            EntityType::AzureResourceId => self.anon_azure_id(matched),
            EntityType::Secret => SECRET_TOKEN.to_owned(),
        }
    }

    /// Everything the configured detectors and the registered hosts find in
    /// `text`.
    fn recognize_all(&self, text: &str) -> (r: Vec<RecognizerResult>)
        requires
            self.wf(),
        ensures
            r@ == recognize_all_spec(self.cfg, self.known_hosts(), text@),
            results_in_text(r@, text@),
    {
        let mut all: Vec<RecognizerResult> = Vec::new();
        let mut i: usize = 0;
        while i < self.recognizers.len()
            invariant
                self.recognizers@ == active_recognizers(self.cfg),
                i <= self.recognizers@.len(),
                all@ == all_kind_hits(self.recognizers@.take(i as int), text@),
                results_in_text(all@, text@),
            decreases self.recognizers@.len() - i,
        {
            assert(self.recognizers@.take(i + 1).drop_last() =~= self.recognizers@.take(i as int));
            let hits = self.recognizers[i].recognize(text);
            all = concat_results(all, hits, Ghost(text@));
            i = i + 1;
        }
        assert(self.recognizers@.take(self.recognizers@.len() as int) =~= self.recognizers@);
        match &self.known_host_re {
            Some(p) => {
                let found = find_spans(p.as_str(), text);
                let hits = tag_all(found, EntityType::Hostname, KNOWN_HOST_SCORE, Ghost(text@));
                all = concat_results(all, hits, Ghost(text@));
            },
            None => {
                assert(all@ + known_host_hits(self.known_hosts(), text@) =~= all@);
            },
        }
        all
    }

    /// `text` scrubbed, given what was detected in it (`found`, byte ranges
    /// of `text`): overlapping spans are resolved, then each surviving span is
    /// replaced by its token.
    pub fn scrub_spans(&mut self, text: &str, found: Vec<RecognizerResult>) -> (r: String)
        requires
            old(self).wf(),
            results_in_text(found@, text@),
        ensures
            final(self).wf(),
            final(self).config() == old(self).config(),
            final(self).known_hosts() == old(self).known_hosts(),
            (final(self).store_view(), r@) == scrub_spans_spec(
                old(self).config(),
                old(self).store_view(),
                text@,
                found@,
            ),
            final(self).store_view().grows_from(old(self).store_view()),
    {
        let ghost st0 = self.store@;
        proof {
            lemma_scrub_spans_grows(self.cfg, st0, text@, found@);
        }
        let ghost bs = text.spec_bytes();
        let ghost in_text = |x: RecognizerResult| is_match_range(text@, (x.start, x.end));
        let spans = resolve_overlaps(found);
        proof {
            assert forall|k: int| 0 <= k < found@.len() implies #[trigger] in_text(found@[k]) by {
                assert(is_match_range(text@, (found@[k].start, found@[k].end)));
            }
            lemma_resolve_keeps(found@, in_text);
            encode_utf8_valid_utf8(text@);
            lemma_whole_is_char_range(bs);
        }
        let n = text.as_bytes().len();
        if spans.len() == 0 {
            proof {
                assert(bs.subrange(0, bs.len() as int) =~= bs);
                encode_utf8_decode_utf8(text@);
                assert(Seq::<char>::empty() + chars_in(bs, 0, bs.len() as int) =~= text@);
            }
            return text.to_owned();
        }
        let mut out = String::new();
        let mut cursor: usize = 0;
        let mut i: usize = 0;
        while i < spans.len()
            invariant
                self.wf(),
                self.same_setup(old(self)),
                st0 == old(self).store@,
                bs == text.spec_bytes(),
                n == bs.len(),
                spans@ == resolve_spec(found@),
                forall|k: int|
                    0 <= k < spans@.len() ==> is_match_range(
                        text@,
                        (#[trigger] spans@[k].start, spans@[k].end),
                    ),
                cursor <= n,
                is_char_range(bs, cursor as int, n as int),
                i <= spans@.len(),
                (self.store@, out@, cursor as int) == scrub_fold(self.cfg, st0, text@, spans@, i as nat),
            decreases spans@.len() - i,
        {
            let s = spans[i];
            assert(is_match_range(text@, (spans@[i as int].start, spans@[i as int].end)));
            if s.start >= cursor {
                let pre = substr(text, cursor, s.start);
                let m = substr(text, s.start, s.end);
                let rep = self.apply(s.entity, m);
                out.append(pre);
                out.append(rep.as_str());
                cursor = s.end;
            }
            i = i + 1;
        }
        let rest = substr(text, cursor, n);
        out.append(rest);
        out
    }

    /// Anonymize all recognized entities in `text`, returning a new string.
    pub fn scrub_text(&mut self, text: &str) -> (r: String)
        requires
            old(self).wf(),
        ensures
            final(self).wf(),
            final(self).config() == old(self).config(),
            final(self).known_hosts() == old(self).known_hosts(),
            (final(self).store_view(), r@) == scrub_spec(
                old(self).config(),
                old(self).store_view(),
                old(self).known_hosts(),
                text@,
            ),
            final(self).store_view().grows_from(old(self).store_view()),
    {
        let found = self.recognize_all(text);
        self.scrub_spans(text, found)
    }

    /// Register the true prefix length for an address so later bare
    /// occurrences of it group into the correct subnet. Ignores unparseable
    /// input.
    pub fn hint_cidr(&mut self, ip: &str, prefix: u8)
        requires
            old(self).wf(),
        ensures
            final(self).wf(),
            final(self).config() == old(self).config(),
            final(self).known_hosts() == old(self).known_hosts(),
            final(self).store_view() == hint_cidr_spec(old(self).store_view(), ip@, prefix),
            final(self).store_view().grows_from(old(self).store_view()),
    {
        proof {
            lemma_hint_cidr_grows(self.store@, ip@, prefix);
        }
        let b = ip.as_bytes();
        let n = b.len();
        assert(b@.subrange(0, n as int) =~= b@);
        match parse_ipv4(b, 0, n) {
            Some(a) => {
                let c: u8 = if prefix < 32 {
                    prefix
                } else {
                    32
                };
                self.store.set_hint(false, a as u128, c);
            },
            None => match parse_ipv6(b, 0, n) {
                Some(a) => {
                    let c: u8 = if prefix < 128 {
                        prefix
                    } else {
                        128
                    };
                    self.store.set_hint(true, a, c);
                },
                None => {},
            },
        }
    }

    /// Register a hostname to scrub wherever it appears as a whole word (such
    /// as the host named by an archive, see
    /// [`crate::extract_archive_hostname`]). The name is trimmed and
    /// lowercased; one-byte, purely numeric and `localhost` values, and names
    /// already registered, are ignored.
    pub fn add_known_hostname(&mut self, host: &str)
        requires
            old(self).wf(),
        ensures
            final(self).wf(),
            final(self).config() == old(self).config(),
            final(self).store_view() == old(self).store_view(),
            final(self).known_hosts() == known_after_add(old(self).known_hosts(), host@),
    {
        let t = trim(host);
        let h = to_lowercase(t);
        if is_ignored_host(&h) {
            return;
        }
        if contains_host(&self.known_hosts, &h) {
            return;
        }
        let ghost old_known = self.known_hosts();
        let ghost hv = h@;
        insert_host(&mut self.known_hosts, h);
        proof {
            lemma_insert_by_len_ok(old_known, hv);
            lemma_insert_keeps_lowercased(old_known, t@);
        }
        let p = build_pattern(&self.known_hosts);
        self.known_host_re = Some(p);
    }

    /// Stable, letter-labeled pseudonym token (e.g. `[[GUID-A]]`,
    /// `[[HOST-B]]`).
    fn pseudonym_token(&mut self, entity: EntityType, label: &str, value_lower: &str) -> (r: String)
        requires
            old(self).wf(),
        ensures
            final(self).wf(),
            final(self).same_setup(old(self)),
            (final(self).store@, r@) == pseudonym_token_spec(
                old(self).store@,
                entity,
                label@,
                value_lower@,
            ),
    {
        let idx = self.store.pseudonym(entity, value_lower);
        let letters = subnet_letters(idx - 1);
        lettered_token(label, letters.as_str())
    }

    /// Letter-labeled token for an Azure resource / resource-group name
    /// (e.g. `[[AZURE_NAME-A]]`).
    fn azure_name_token(&mut self, name_lower: &str) -> (r: String)
        requires
            old(self).wf(),
        ensures
            final(self).wf(),
            final(self).same_setup(old(self)),
            (final(self).store@, r@) == azure_name_token_spec(old(self).store@, name_lower@),
    {
        let idx = self.store.azure_name(name_lower);
        let letters = subnet_letters(idx - 1);
        lettered_token("AZURE_NAME", letters.as_str())
    }

    fn anon_ipv4(&mut self, matched: &str) -> (r: String)
        requires
            old(self).wf(),
        ensures
            final(self).wf(),
            final(self).same_setup(old(self)),
            (final(self).store@, r@) == anon_ipv4_spec(old(self).cfg, old(self).store@, matched@),
    {
        let (addr_s, prefix_opt) = split_prefix(matched);
        let ab = addr_s.as_bytes();
        assert(ab@.subrange(0, ab@.len() as int) =~= ab@);
        let addr = match parse_ipv4(ab, 0, ab.len()) {
            Some(a) => a,
            None => {
                return matched.to_owned();
            },
        };
        if is_ipv4_allowlisted(addr, &self.cfg) {
            return matched.to_owned();
        }
        let key = addr as u128;
        match prefix_opt {
            Some(p) => {
                let c: u8 = if p < 32 { p } else { 32 };
                self.store.set_hint(false, key, c);
            },
            None => {},
        }
        let chosen = match prefix_opt {
            Some(p) => p,
            None => match self.store.hint_for(false, key) {
                Some(h) => h,
                None => self.cfg.ipv4_default_prefix,
            },
        };
        let prefix: u8 = if chosen < 32 { chosen } else { 32 };
        let net = ipv4_network(addr, prefix);
        let label = self.store.subnet_label_v4(net, prefix);
        let host = self.store.host_index(label, key);
        let letters = subnet_letters(label);
        ip_token("IPv4", letters.as_str(), host, prefix_opt)
    }

    fn anon_ipv6(&mut self, matched: &str) -> (r: String)
        requires
            old(self).wf(),
        ensures
            final(self).wf(),
            final(self).same_setup(old(self)),
            (final(self).store@, r@) == anon_ipv6_spec(old(self).cfg, old(self).store@, matched@),
    {
        let (addr_s, prefix_opt) = split_prefix(matched);
        let core = split_zone(addr_s);
        let cb = core.as_bytes();
        assert(cb@.subrange(0, cb@.len() as int) =~= cb@);
        let addr = match parse_ipv6(cb, 0, cb.len()) {
            Some(a) => a,
            None => {
                return matched.to_owned();
            },
        };
        if is_ipv6_allowlisted(addr) {
            return matched.to_owned();
        }
        match prefix_opt {
            Some(p) => {
                let c: u8 = if p < 128 { p } else { 128 };
                self.store.set_hint(true, addr, c);
            },
            None => {},
        }
        let chosen = match prefix_opt {
            Some(p) => p,
            None => match self.store.hint_for(true, addr) {
                Some(h) => h,
                None => self.cfg.ipv6_default_prefix,
            },
        };
        let prefix: u8 = if chosen < 128 { chosen } else { 128 };
        let net = ipv6_network(addr, prefix);
        let label = self.store.subnet_label_v6(net, prefix);
        let host = self.store.host_index(label, addr);
        let letters = subnet_letters(label);
        ip_token("IPv6", letters.as_str(), host, prefix_opt)
    }

    fn anon_mac(&mut self, matched: &str) -> (r: String)
        requires
            old(self).wf(),
        ensures
            final(self).wf(),
            final(self).same_setup(old(self)),
            (final(self).store@, r@) == anon_mac_spec(old(self).store@, matched@),
    {
        let b = matched.as_bytes();
        let ghost bs = matched.spec_bytes();
        let n = b.len();
        assert(b@.subrange(0, n as int) =~= bs);
        let sep: u8 = if contains_byte(b, 0, n, COLON) { COLON } else { HYPHEN };
        let ranges = split_ranges_in(b, 0, n, sep);
        if ranges.len() != 6 {
            return matched.to_owned();
        }
        let end3 = ranges[2].1;
        proof {
            lemma_split_ranges(bs, sep);
            encode_utf8_valid_utf8(matched@);
            lemma_whole_is_char_range(bs);
            crate::bytes::lemma_split_piece_end(bs, sep, 2);
            lemma_ascii_byte_is_boundary(bs, end3 as int);
        }
        let oui = substr(matched, 0, end3);
        let oui_l = to_lowercase(oui);
        let mac_l = to_lowercase(matched);
        let idx = self.store.mac_index(oui_l.as_str(), mac_l.as_str());
        mac_token(oui, idx)
    }

    /// One segment (`ranges[i]`) of an ARM resource id, scrubbed.
    fn anon_azure_segment(&mut self, matched: &str, ranges: &Vec<(usize, usize)>, i: usize) -> (r:
        String)
        requires
            old(self).wf(),
            i < ranges@.len(),
            ranges_match(ranges@, split_ranges(matched.spec_bytes(), SLASH)),
        ensures
            final(self).wf(),
            final(self).same_setup(old(self)),
            (final(self).store@, r@) == ({
                let bs = matched.spec_bytes();
                let sr = split_ranges(bs, SLASH);
                azure_segment_spec(
                    old(self).store@,
                    segment(bs, sr, i as int),
                    segment(bs, sr, i - 1),
                    segment(bs, sr, i - 2),
                )
            }),
    {
        let b = matched.as_bytes();
        let ghost bs = matched.spec_bytes();
        let ghost sr = split_ranges(bs, SLASH);
        let n = b.len();
        proof {
            lemma_split_ranges(bs, SLASH);
            encode_utf8_valid_utf8(matched@);
            lemma_whole_is_char_range(bs);
        }
        let (s0, e0) = ranges[i];
        assert(s0 == sr[i as int].0 && e0 == sr[i as int].1);
        let (ps, pe) = if i >= 1 {
            ranges[i - 1]
        } else {
            (0, 0)
        };
        let (qs, qe) = if i >= 2 {
            ranges[i - 2]
        } else {
            (0, 0)
        };
        assert(b@.subrange(ps as int, pe as int) =~= segment(bs, sr, i - 1));
        assert(b@.subrange(qs as int, qe as int) =~= segment(bs, sr, i - 2));
        assert(b@.subrange(s0 as int, e0 as int) =~= segment(bs, sr, i as int));
        if s0 == e0 {
            return String::new();
        }
        proof {
            if i > 0 {
                crate::bytes::lemma_split_piece_end(bs, SLASH, i - 1);
                lemma_after_ascii_byte_is_boundary(bs, sr[i - 1].1);
            }
            if i + 1 < sr.len() {
                crate::bytes::lemma_split_piece_end(bs, SLASH, i as int);
                lemma_ascii_byte_is_boundary(bs, e0 as int);
            }
        }
        let seg = substr(matched, s0, e0);
        if is_guid(seg) {
            let lower = to_lowercase(seg);
            return self.pseudonym_token(EntityType::Guid, "GUID", lower.as_str());
        }
        if bytes_eq_ignore_case(b, ps, pe, RESOURCE_GROUPS.as_bytes()) {
            let lower = to_lowercase(seg);
            return self.azure_name_token(lower.as_str());
        }
        if contains_byte(b, qs, qe, DOT) && !contains_byte(b, ps, pe, DOT) {
            let lower = to_lowercase(seg);
            return self.azure_name_token(lower.as_str());
        }
        seg.to_owned()
    }

    /// Structural scrub of an ARM resource id: keep the provider/type
    /// skeleton, replace the subscription GUID, resource-group name and
    /// instance names.
    fn anon_azure_id(&mut self, matched: &str) -> (r: String)
        requires
            old(self).wf(),
        ensures
            final(self).wf(),
            final(self).same_setup(old(self)),
            (final(self).store@, r@) == anon_azure_spec(old(self).store@, matched@),
    {
        let b = matched.as_bytes();
        let ghost bs = matched.spec_bytes();
        let ghost sr = split_ranges(bs, SLASH);
        let ghost st0 = self.store@;
        let n = b.len();
        assert(b@.subrange(0, n as int) =~= bs);
        let ranges = split_ranges_in(b, 0, n, SLASH);
        let mut out = String::new();
        let mut i: usize = 0;
        while i < ranges.len()
            invariant
                self.wf(),
                self.same_setup(old(self)),
                st0 == old(self).store@,
                bs == matched.spec_bytes(),
                sr == split_ranges(bs, SLASH),
                ranges_match(ranges@, sr),
                i <= ranges@.len(),
                (self.store@, out@) == azure_fold(st0, bs, sr, i as nat),
            decreases ranges@.len() - i,
        {
            let piece = self.anon_azure_segment(matched, &ranges, i);
            if i > 0 {
                out.append("/");
            }
            out.append(piece.as_str());
            i = i + 1;
        }
        out
    }
}

} // verus!

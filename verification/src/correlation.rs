//! Laws of the tokens: correlation preservation, distinguishable
//! pseudonyms, subnet-preserving addresses.
//!
//! Correlation preservation — within one anonymizer the same value
//! always maps to the same token — rests on two facts. Replacing a span only
//! adds mappings: every table of the store grows, no entry moves
//! ([`lemma_apply_grows`], and the scrubbing entry points state the same of
//! the store they leave behind). And the token of a span is decided by the
//! mappings it reads, so in any store grown from the one its first
//! replacement left behind, the span gets the same token again
//! ([`lemma_apply_stable`]). The one exception is a bare IP address whose
//! recorded prefix was replaced in between (by `hint_cidr`, or by the same
//! address written with a different `/NN`): its subnet is then computed under
//! the new prefix.
//!
//! Distinct values of one kind get distinct tokens
//! ([`lemma_pseudonym_tokens_distinct`], [`lemma_azure_name_tokens_distinct`]),
//! and addresses share a `net-` label exactly when they are placed in the same
//! subnet ([`lemma_ipv4_subnet_labels`], [`lemma_ipv6_subnet_labels`]).

use vstd::prelude::*;
use vstd::string::*;
use vstd::utf8::{decode_utf8, encode_utf8};
use crate::config::Config;
use crate::engine::{
    hint_cidr_spec, recognize_all_spec, scrub_fold, scrub_spans_spec,
    anon_azure_spec, anon_ipv4_spec, anon_ipv6_spec, anon_mac_spec, apply_spec, azure_fold,
    azure_name_token_spec, azure_segment_spec, capped, pseudonym_token_spec, segment,
};
use crate::netaddr::{ipv4_text_value, ipv6_text_value};
use crate::recognizers::ip::{candidate_addr, prefix_split, without_zone};
use crate::json::{scrub_json_items, scrub_json_members, scrub_json_value, JsonView};
use crate::overlap::resolve_spec;
use crate::recognizers::{EntityType, RecognizerResult};
use crate::ip::{lemma_letters_injective, letters};
use crate::store::{
    entity_slot, intern_spec, keeps_entries, lemma_grows_refl, lemma_grows_trans, lemma_intern_grows,
    StoreView, SubnetKey,
};
use crate::strategy::{ip_token_text, lettered_token_text, mac_token_text};
use crate::text::{decimal, unicode_lowercase};

verus! {

/// The address whose recorded prefix decides the token of span `m` of type
/// `entity`: that of a bare IPv4 or IPv6 address (one written without
/// `/NN`). Spans of other types, and addresses with an explicit prefix, do
/// not depend on recorded prefixes.
pub open spec fn hint_dependency(entity: EntityType, m: Seq<char>) -> Option<(bool, u128)> {
    let b = encode_utf8(m);
    if prefix_split(b).1 is Some {
        None
    } else {
        match entity {
            EntityType::Ipv4 => match ipv4_text_value(candidate_addr(b)) {
                Some(a) => Some((false, a as u128)),
                None => None,
            },
            EntityType::Ipv6 => match ipv6_text_value(without_zone(candidate_addr(b))) {
                Some(a) => Some((true, a)),
                None => None,
            },
            _ => None,
        }
    }
}

/// `later` records the same prefix as `earlier` for the address the token of
/// `m` depends on, if any.
pub open spec fn same_deciding_hint(earlier: StoreView, later: StoreView, entity: EntityType, m: Seq<char>) -> bool {
    match hint_dependency(entity, m) {
        Some((v6, a)) => later.hint_for(v6, a) == earlier.hint_for(v6, a),
        None => true,
    }
}

proof fn lemma_pseudonym_token_grows(st: StoreView, entity: EntityType, label: Seq<char>, value: Seq<char>)
    requires
        st.wf(),
    ensures
        pseudonym_token_spec(st, entity, label, value).0.wf(),
        pseudonym_token_spec(st, entity, label, value).0.grows_from(st),
{
    st.lemma_pseudonym_grows(entity, value);
}

proof fn lemma_pseudonym_token_stable(
    st: StoreView,
    entity: EntityType,
    label: Seq<char>,
    value: Seq<char>,
    st2: StoreView,
)
    requires
        st.wf(),
        st2.wf(),
        st2.grows_from(pseudonym_token_spec(st, entity, label, value).0),
    ensures
        pseudonym_token_spec(st2, entity, label, value) == (st2, pseudonym_token_spec(st, entity, label, value).1),
{
    st.lemma_pseudonym_stable(entity, value, st2);
}

proof fn lemma_azure_name_token_grows(st: StoreView, name: Seq<char>)
    requires
        st.wf(),
    ensures
        azure_name_token_spec(st, name).0.wf(),
        azure_name_token_spec(st, name).0.grows_from(st),
{
    st.lemma_azure_name_grows(name);
}

proof fn lemma_azure_name_token_stable(st: StoreView, name: Seq<char>, st2: StoreView)
    requires
        st.wf(),
        st2.wf(),
        st2.grows_from(azure_name_token_spec(st, name).0),
    ensures
        azure_name_token_spec(st2, name) == (st2, azure_name_token_spec(st, name).1),
{
    st.lemma_azure_name_stable(name, st2);
}

/// Labelling a subnet and numbering a host in it.
proof fn lemma_subnet_host_grows(st: StoreView, key: SubnetKey, addr: u128)
    requires
        st.wf(),
    ensures
        ({
            let (s1, label) = st.subnet_label(key);
            let (s2, host) = s1.host_index(label, addr);
            &&& s2.wf()
            &&& s2.grows_from(st)
            &&& s2.hints == st.hints
        }),
{
    st.lemma_subnet_label_grows(key);
    let (s1, label) = st.subnet_label(key);
    s1.lemma_host_index_grows(label, addr);
    lemma_grows_trans(st, s1, s1.host_index(label, addr).0);
}

proof fn lemma_subnet_host_stable(st: StoreView, key: SubnetKey, addr: u128, st2: StoreView)
    requires
        st.wf(),
        st2.wf(),
        st2.grows_from(st.subnet_label(key).0.host_index(st.subnet_label(key).1, addr).0),
    ensures
        ({
            let (s1, label) = st.subnet_label(key);
            let (s2, host) = s1.host_index(label, addr);
            let (t1, label2) = st2.subnet_label(key);
            let (t2, host2) = t1.host_index(label2, addr);
            t1 == st2 && label2 == label && t2 == st2 && host2 == host
        }),
{
    st.lemma_subnet_label_grows(key);
    let (s1, label) = st.subnet_label(key);
    s1.lemma_host_index_grows(label, addr);
    let s2 = s1.host_index(label, addr).0;
    lemma_grows_trans(s1, s2, st2);
    st.lemma_subnet_label_stable(key, st2);
    s1.lemma_host_index_stable(label, addr, st2);
}

proof fn lemma_anon_ipv4_grows(cfg: Config, st: StoreView, m: Seq<char>)
    requires
        st.wf(),
    ensures
        anon_ipv4_spec(cfg, st, m).0.wf(),
        anon_ipv4_spec(cfg, st, m).0.grows_from(st),
{
    let b = encode_utf8(m);
    let p = prefix_split(b).1;
    match ipv4_text_value(candidate_addr(b)) {
        None => lemma_grows_refl(st),
        Some(a) => {
            let key = a as u128;
            let st1 = match p {
                Some(pp) => st.with_hint(false, key, capped(pp, 32)),
                None => st,
            };
            match p {
                Some(pp) => st.lemma_with_hint_grows(false, key, capped(pp, 32)),
                None => lemma_grows_refl(st),
            }
            let chosen = match p {
                Some(pp) => pp,
                None => match st1.hint_for(false, key) {
                    Some(h) => h,
                    None => cfg.ipv4_default_prefix,
                },
            };
            let prefix = capped(chosen, 32);
            let net = crate::ip::network_value(a as nat, 32, prefix as nat);
            let sk = SubnetKey { v6: false, network: net as u128, prefix };
            lemma_subnet_host_grows(st1, sk, key);
            lemma_grows_trans(st, st1, st1.subnet_label(sk).0.host_index(st1.subnet_label(sk).1, key).0);
            lemma_grows_refl(st);
        },
    }
}

proof fn lemma_anon_ipv4_stable(cfg: Config, st: StoreView, m: Seq<char>, st2: StoreView)
    requires
        st.wf(),
        st2.wf(),
        st2.grows_from(anon_ipv4_spec(cfg, st, m).0),
        same_deciding_hint(st, st2, EntityType::Ipv4, m),
    ensures
        anon_ipv4_spec(cfg, st2, m).1 == anon_ipv4_spec(cfg, st, m).1,
{
    let b = encode_utf8(m);
    let p = prefix_split(b).1;
    match ipv4_text_value(candidate_addr(b)) {
        None => {},
        Some(a) => {
            if !crate::allowlist::ipv4_allowlisted(a, cfg.extra_ipv4_allowlist@) {
                let key = a as u128;
                let st1 = match p {
                    Some(pp) => st.with_hint(false, key, capped(pp, 32)),
                    None => st,
                };
                let u1 = match p {
                    Some(pp) => st2.with_hint(false, key, capped(pp, 32)),
                    None => st2,
                };
                match p {
                    Some(pp) => {
                        st.lemma_with_hint_grows(false, key, capped(pp, 32));
                        st2.lemma_with_hint_grows(false, key, capped(pp, 32));
                    },
                    None => {
                        lemma_grows_refl(st);
                        lemma_grows_refl(st2);
                    },
                }
                let chosen = match p {
                    Some(pp) => pp,
                    None => match st1.hint_for(false, key) {
                        Some(h) => h,
                        None => cfg.ipv4_default_prefix,
                    },
                };
                let prefix = capped(chosen, 32);
                let net = crate::ip::network_value(a as nat, 32, prefix as nat);
                let sk = SubnetKey { v6: false, network: net as u128, prefix };
                lemma_grows_trans(st1.subnet_label(sk).0.host_index(st1.subnet_label(sk).1, key).0, st2, u1);
                lemma_subnet_host_stable(st1, sk, key, u1);
            }
        },
    }
}

proof fn lemma_anon_ipv6_grows(cfg: Config, st: StoreView, m: Seq<char>)
    requires
        st.wf(),
    ensures
        anon_ipv6_spec(cfg, st, m).0.wf(),
        anon_ipv6_spec(cfg, st, m).0.grows_from(st),
{
    let b = encode_utf8(m);
    let p = prefix_split(b).1;
    match ipv6_text_value(without_zone(candidate_addr(b))) {
        None => lemma_grows_refl(st),
        Some(a) => {
            let st1 = match p {
                Some(pp) => st.with_hint(true, a, capped(pp, 128)),
                None => st,
            };
            match p {
                Some(pp) => st.lemma_with_hint_grows(true, a, capped(pp, 128)),
                None => lemma_grows_refl(st),
            }
            let chosen = match p {
                Some(pp) => pp,
                None => match st1.hint_for(true, a) {
                    Some(h) => h,
                    None => cfg.ipv6_default_prefix,
                },
            };
            let prefix = capped(chosen, 128);
            let net = crate::ip::network_value(a as nat, 128, prefix as nat);
            let sk = SubnetKey { v6: true, network: net as u128, prefix };
            lemma_subnet_host_grows(st1, sk, a);
            lemma_grows_trans(st, st1, st1.subnet_label(sk).0.host_index(st1.subnet_label(sk).1, a).0);
            lemma_grows_refl(st);
        },
    }
}

proof fn lemma_anon_ipv6_stable(cfg: Config, st: StoreView, m: Seq<char>, st2: StoreView)
    requires
        st.wf(),
        st2.wf(),
        st2.grows_from(anon_ipv6_spec(cfg, st, m).0),
        same_deciding_hint(st, st2, EntityType::Ipv6, m),
    ensures
        anon_ipv6_spec(cfg, st2, m).1 == anon_ipv6_spec(cfg, st, m).1,
{
    let b = encode_utf8(m);
    let p = prefix_split(b).1;
    match ipv6_text_value(without_zone(candidate_addr(b))) {
        None => {},
        Some(a) => {
            if !crate::allowlist::ipv6_allowlisted(a) {
                let st1 = match p {
                    Some(pp) => st.with_hint(true, a, capped(pp, 128)),
                    None => st,
                };
                let u1 = match p {
                    Some(pp) => st2.with_hint(true, a, capped(pp, 128)),
                    None => st2,
                };
                match p {
                    Some(pp) => {
                        st.lemma_with_hint_grows(true, a, capped(pp, 128));
                        st2.lemma_with_hint_grows(true, a, capped(pp, 128));
                    },
                    None => {
                        lemma_grows_refl(st);
                        lemma_grows_refl(st2);
                    },
                }
                let chosen = match p {
                    Some(pp) => pp,
                    None => match st1.hint_for(true, a) {
                        Some(h) => h,
                        None => cfg.ipv6_default_prefix,
                    },
                };
                let prefix = capped(chosen, 128);
                let net = crate::ip::network_value(a as nat, 128, prefix as nat);
                let sk = SubnetKey { v6: true, network: net as u128, prefix };
                lemma_grows_trans(st1.subnet_label(sk).0.host_index(st1.subnet_label(sk).1, a).0, st2, u1);
                lemma_subnet_host_stable(st1, sk, a, u1);
            }
        },
    }
}

proof fn lemma_anon_mac_grows(st: StoreView, m: Seq<char>)
    requires
        st.wf(),
    ensures
        anon_mac_spec(st, m).0.wf(),
        anon_mac_spec(st, m).0.grows_from(st),
{
    lemma_grows_refl(st);
    let b = encode_utf8(m);
    let sep: u8 = if crate::bytes::has_byte(b, crate::netaddr::COLON) {
        crate::netaddr::COLON
    } else {
        crate::engine::HYPHEN
    };
    let r = crate::bytes::split_ranges(b, sep);
    if r.len() == 6 {
        let oui = crate::text::chars_in(b, 0, r[2].1);
        st.lemma_mac_index_grows(unicode_lowercase(oui), unicode_lowercase(m));
    }
}

proof fn lemma_anon_mac_stable(st: StoreView, m: Seq<char>, st2: StoreView)
    requires
        st.wf(),
        st2.wf(),
        st2.grows_from(anon_mac_spec(st, m).0),
    ensures
        anon_mac_spec(st2, m).1 == anon_mac_spec(st, m).1,
{
    let b = encode_utf8(m);
    let sep: u8 = if crate::bytes::has_byte(b, crate::netaddr::COLON) {
        crate::netaddr::COLON
    } else {
        crate::engine::HYPHEN
    };
    let r = crate::bytes::split_ranges(b, sep);
    if r.len() == 6 {
        let oui = crate::text::chars_in(b, 0, r[2].1);
        st.lemma_mac_index_stable(unicode_lowercase(oui), unicode_lowercase(m), st2);
    }
}

proof fn lemma_azure_segment_grows(st: StoreView, seg: Seq<u8>, prev: Seq<u8>, prev2: Seq<u8>)
    requires
        st.wf(),
    ensures
        azure_segment_spec(st, seg, prev, prev2).0.wf(),
        azure_segment_spec(st, seg, prev, prev2).0.grows_from(st),
{
    lemma_grows_refl(st);
    let c = decode_utf8(seg);
    lemma_pseudonym_token_grows(st, EntityType::Guid, "GUID"@, unicode_lowercase(c));
    lemma_azure_name_token_grows(st, unicode_lowercase(c));
}

proof fn lemma_azure_segment_stable(st: StoreView, seg: Seq<u8>, prev: Seq<u8>, prev2: Seq<u8>, st2: StoreView)
    requires
        st.wf(),
        st2.wf(),
        st2.grows_from(azure_segment_spec(st, seg, prev, prev2).0),
    ensures
        azure_segment_spec(st2, seg, prev, prev2) == (st2, azure_segment_spec(st, seg, prev, prev2).1),
{
    let c = decode_utf8(seg);
    if seg.len() == 0 {
    } else if crate::strategy::guid_shaped(c) {
        lemma_pseudonym_token_stable(st, EntityType::Guid, "GUID"@, unicode_lowercase(c), st2);
    } else if crate::bytes::eq_ignore_case(prev, crate::engine::RESOURCE_GROUPS.spec_bytes()) {
        lemma_azure_name_token_stable(st, unicode_lowercase(c), st2);
    } else if crate::bytes::has_byte(prev2, crate::netaddr::DOT) && !crate::bytes::has_byte(
        prev,
        crate::netaddr::DOT,
    ) {
        lemma_azure_name_token_stable(st, unicode_lowercase(c), st2);
    }
}

proof fn lemma_azure_fold_grows(st: StoreView, b: Seq<u8>, r: Seq<(int, int)>, k: nat)
    requires
        st.wf(),
    ensures
        azure_fold(st, b, r, k).0.wf(),
        azure_fold(st, b, r, k).0.grows_from(st),
    decreases k,
{
    if k == 0 {
        lemma_grows_refl(st);
    } else {
        lemma_azure_fold_grows(st, b, r, (k - 1) as nat);
        let s1 = azure_fold(st, b, r, (k - 1) as nat).0;
        let i = k - 1;
        lemma_azure_segment_grows(s1, segment(b, r, i), segment(b, r, i - 1), segment(b, r, i - 2));
        lemma_grows_trans(st, s1, azure_fold(st, b, r, k).0);
    }
}

/// In a store grown from the one the whole id left behind, every prefix of
/// the id is scrubbed to the same text and the store is left as it is.
proof fn lemma_azure_fold_stable(st: StoreView, b: Seq<u8>, r: Seq<(int, int)>, n: nat, k: nat, st2: StoreView)
    requires
        st.wf(),
        st2.wf(),
        k <= n,
        st2.grows_from(azure_fold(st, b, r, n).0),
    ensures
        azure_fold(st2, b, r, k) == (st2, azure_fold(st, b, r, k).1),
    decreases k,
{
    if k > 0 {
        lemma_azure_fold_stable(st, b, r, n, (k - 1) as nat, st2);
        let s1 = azure_fold(st, b, r, (k - 1) as nat).0;
        let i = k - 1;
        lemma_azure_fold_grows(st, b, r, (k - 1) as nat);
        let sk = azure_fold(st, b, r, k).0;
        lemma_azure_segment_grows(s1, segment(b, r, i), segment(b, r, i - 1), segment(b, r, i - 2));
        lemma_azure_fold_later_grows(st, b, r, k, n);
        lemma_grows_trans(sk, azure_fold(st, b, r, n).0, st2);
        lemma_azure_segment_stable(s1, segment(b, r, i), segment(b, r, i - 1), segment(b, r, i - 2), st2);
    }
}

/// The store after `n` segments has grown from the store after `k <= n`.
proof fn lemma_azure_fold_later_grows(st: StoreView, b: Seq<u8>, r: Seq<(int, int)>, k: nat, n: nat)
    requires
        st.wf(),
        k <= n,
    ensures
        azure_fold(st, b, r, n).0.grows_from(azure_fold(st, b, r, k).0),
    decreases n,
{
    if n == k {
        lemma_grows_refl(azure_fold(st, b, r, k).0);
    } else {
        lemma_azure_fold_later_grows(st, b, r, k, (n - 1) as nat);
        let s1 = azure_fold(st, b, r, (n - 1) as nat).0;
        lemma_azure_fold_grows(st, b, r, (n - 1) as nat);
        let i = n - 1;
        lemma_azure_segment_grows(s1, segment(b, r, i), segment(b, r, i - 1), segment(b, r, i - 2));
        lemma_grows_trans(azure_fold(st, b, r, k).0, s1, azure_fold(st, b, r, n).0);
    }
}

/// Law: replacing a span only adds mappings: the store stays well formed
/// and every mapping it held is still there, unchanged.
pub proof fn lemma_apply_grows(cfg: Config, st: StoreView, entity: EntityType, m: Seq<char>)
    requires
        st.wf(),
    ensures
        apply_spec(cfg, st, entity, m).0.wf(),
        apply_spec(cfg, st, entity, m).0.grows_from(st),
{
    lemma_grows_refl(st);
    match entity {
        EntityType::Ipv4 => lemma_anon_ipv4_grows(cfg, st, m),
        EntityType::Ipv6 => lemma_anon_ipv6_grows(cfg, st, m),
        EntityType::Mac => lemma_anon_mac_grows(st, m),
        EntityType::Guid => lemma_pseudonym_token_grows(st, entity, "GUID"@, unicode_lowercase(m)),
        EntityType::Email => lemma_pseudonym_token_grows(st, entity, "EMAIL"@, unicode_lowercase(m)),
        EntityType::Hostname => lemma_pseudonym_token_grows(st, entity, "HOST"@, unicode_lowercase(m)),
        EntityType::AzureResourceId => {
            let b = encode_utf8(m);
            let r = crate::bytes::split_ranges(b, crate::recognizers::ip::SLASH);
            lemma_azure_fold_grows(st, b, r, r.len());
        },
        EntityType::Secret => {},
    }
}

/// Law (correlation preservation): a span that was replaced by `token`
/// gets the same token again in any well-formed store grown from the one
/// its replacement left behind — so the same value keeps its token however
/// much is scrubbed in between. For a bare IP address this needs the
/// recorded prefix of that address to be the one it had before.
pub proof fn lemma_apply_stable(cfg: Config, st: StoreView, entity: EntityType, m: Seq<char>, st2: StoreView)
    requires
        st.wf(),
        st2.wf(),
        st2.grows_from(apply_spec(cfg, st, entity, m).0),
        same_deciding_hint(st, st2, entity, m),
    ensures
        apply_spec(cfg, st2, entity, m).1 == apply_spec(cfg, st, entity, m).1,
{
    match entity {
        EntityType::Ipv4 => lemma_anon_ipv4_stable(cfg, st, m, st2),
        EntityType::Ipv6 => lemma_anon_ipv6_stable(cfg, st, m, st2),
        EntityType::Mac => lemma_anon_mac_stable(st, m, st2),
        EntityType::Guid => lemma_pseudonym_token_stable(st, entity, "GUID"@, unicode_lowercase(m), st2),
        EntityType::Email => lemma_pseudonym_token_stable(st, entity, "EMAIL"@, unicode_lowercase(m), st2),
        EntityType::Hostname => lemma_pseudonym_token_stable(st, entity, "HOST"@, unicode_lowercase(m), st2),
        EntityType::AzureResourceId => {
            let b = encode_utf8(m);
            let r = crate::bytes::split_ranges(b, crate::recognizers::ip::SLASH);
            lemma_azure_fold_stable(st, b, r, r.len(), r.len(), st2);
        },
        EntityType::Secret => {},
    }
}

proof fn lemma_scrub_fold_grows(cfg: Config, st: StoreView, text: Seq<char>, spans: Seq<RecognizerResult>, k: nat)
    requires
        st.wf(),
    ensures
        scrub_fold(cfg, st, text, spans, k).0.wf(),
        scrub_fold(cfg, st, text, spans, k).0.grows_from(st),
    decreases k,
{
    if k == 0 {
        lemma_grows_refl(st);
    } else {
        lemma_scrub_fold_grows(cfg, st, text, spans, (k - 1) as nat);
        let (s1, out, cur) = scrub_fold(cfg, st, text, spans, (k - 1) as nat);
        let sp = spans[k - 1];
        if sp.start >= cur {
            let b = encode_utf8(text);
            lemma_apply_grows(cfg, s1, sp.entity, crate::text::chars_in(b, sp.start as int, sp.end as int));
            lemma_grows_trans(st, s1, scrub_fold(cfg, st, text, spans, k).0);
        }
    }
}

/// Law: scrubbing text, given what was detected in it, only adds mappings.
pub proof fn lemma_scrub_spans_grows(cfg: Config, st: StoreView, text: Seq<char>, found: Seq<RecognizerResult>)
    requires
        st.wf(),
    ensures
        scrub_spans_spec(cfg, st, text, found).0.wf(),
        scrub_spans_spec(cfg, st, text, found).0.grows_from(st),
{
    let spans = resolve_spec(found);
    lemma_scrub_fold_grows(cfg, st, text, spans, spans.len());
}

proof fn lemma_scrub_json_value_grows(
    cfg: Config,
    known: Seq<Seq<char>>,
    st: StoreView,
    key: Option<Seq<char>>,
    v: JsonView,
)
    requires
        st.wf(),
    ensures
        scrub_json_value(cfg, known, st, key, v).0.wf(),
        scrub_json_value(cfg, known, st, key, v).0.grows_from(st),
    decreases v,
{
    lemma_grows_refl(st);
    match v {
        JsonView::Str(s) => {
            lemma_scrub_spans_grows(cfg, st, s, recognize_all_spec(cfg, known, s));
        },
        JsonView::Array(items) => {
            lemma_scrub_json_items_grows(cfg, known, st, key, items);
        },
        JsonView::Object(members) => {
            lemma_scrub_json_members_grows(cfg, known, st, members);
        },
        _ => {},
    }
}

proof fn lemma_scrub_json_items_grows(
    cfg: Config,
    known: Seq<Seq<char>>,
    st: StoreView,
    key: Option<Seq<char>>,
    items: Seq<JsonView>,
)
    requires
        st.wf(),
    ensures
        scrub_json_items(cfg, known, st, key, items).0.wf(),
        scrub_json_items(cfg, known, st, key, items).0.grows_from(st),
    decreases items,
{
    if items.len() == 0 {
        lemma_grows_refl(st);
    } else {
        lemma_scrub_json_items_grows(cfg, known, st, key, items.drop_last());
        let s1 = scrub_json_items(cfg, known, st, key, items.drop_last()).0;
        lemma_scrub_json_value_grows(cfg, known, s1, key, items.last());
        lemma_grows_trans(st, s1, scrub_json_items(cfg, known, st, key, items).0);
    }
}

proof fn lemma_scrub_json_members_grows(
    cfg: Config,
    known: Seq<Seq<char>>,
    st: StoreView,
    members: Seq<(Seq<char>, JsonView)>,
)
    requires
        st.wf(),
    ensures
        scrub_json_members(cfg, known, st, members).0.wf(),
        scrub_json_members(cfg, known, st, members).0.grows_from(st),
    decreases members,
{
    if members.len() == 0 {
        lemma_grows_refl(st);
    } else {
        lemma_scrub_json_members_grows(cfg, known, st, members.drop_last());
        let s1 = scrub_json_members(cfg, known, st, members.drop_last()).0;
        let (k, v) = members.last();
        lemma_scrub_json_value_grows(cfg, known, s1, Some(k), v);
        lemma_grows_trans(st, s1, scrub_json_members(cfg, known, st, members).0);
    }
}

/// Law: scrubbing a JSON document only adds mappings.
pub proof fn lemma_scrub_json_grows(cfg: Config, known: Seq<Seq<char>>, st: StoreView, v: JsonView)
    requires
        st.wf(),
    ensures
        scrub_json_value(cfg, known, st, None, v).0.wf(),
        scrub_json_value(cfg, known, st, None, v).0.grows_from(st),
{
    lemma_scrub_json_value_grows(cfg, known, st, None, v);
}

/// Law: recording a prefix hint keeps every mapping.
pub proof fn lemma_hint_cidr_grows(st: StoreView, ip: Seq<char>, prefix: u8)
    requires
        st.wf(),
    ensures
        hint_cidr_spec(st, ip, prefix).wf(),
        hint_cidr_spec(st, ip, prefix).grows_from(st),
{
    lemma_grows_refl(st);
    let b = encode_utf8(ip);
    match ipv4_text_value(b) {
        Some(a) => st.lemma_with_hint_grows(false, a as u128, capped(prefix, 32)),
        None => match ipv6_text_value(b) {
            Some(a) => st.lemma_with_hint_grows(true, a, capped(prefix, 128)),
            None => {},
        },
    }
}

/// Tokens built on one label differ when their letter tags differ.
proof fn lemma_lettered_token_injective(label: Seq<char>, l1: Seq<char>, l2: Seq<char>)
    requires
        lettered_token_text(label, l1) == lettered_token_text(label, l2),
    ensures
        l1 == l2,
{
    let head = "[["@ + label + "-"@;
    let t1 = lettered_token_text(label, l1);
    let t2 = lettered_token_text(label, l2);
    assert(t1 == head + l1 + "]]"@);
    assert(t2 == head + l2 + "]]"@);
    assert(l1.len() == l2.len());
    assert(l1 =~= t1.subrange(head.len() as int, (head.len() + l1.len()) as int));
    assert(l2 =~= t2.subrange(head.len() as int, (head.len() + l2.len()) as int));
}

/// Law (distinguishable pseudonyms): two different values of one entity
/// type never get the same token, whatever was scrubbed in between.
pub proof fn lemma_pseudonym_tokens_distinct(
    st: StoreView,
    entity: EntityType,
    label: Seq<char>,
    v1: Seq<char>,
    v2: Seq<char>,
    stx: StoreView,
)
    requires
        st.wf(),
        stx.wf(),
        stx.grows_from(pseudonym_token_spec(st, entity, label, v1).0),
        v1 != v2,
    ensures
        pseudonym_token_spec(stx, entity, label, v2).1 != pseudonym_token_spec(st, entity, label, v1).1,
{
    let k = entity_slot(entity);
    st.lemma_pseudonym_grows(entity, v1);
    let s1 = st.pseudonym(entity, v1).0;
    let i1 = st.pseudonym(entity, v1).1;
    lemma_intern_grows(st.pseudonyms[k], v1);
    assert(s1.pseudonyms[k][i1 - 1] == v1);
    let tx = stx.pseudonyms[k];
    assert(keeps_entries(tx, s1.pseudonyms[k]));
    assert(tx[i1 - 1] == v1);
    lemma_intern_grows(tx, v2);
    let i2 = intern_spec(tx, v2).1;
    assert(intern_spec(tx, v2).0[i1 - 1] == v1);
    assert(i1 != i2);
    if pseudonym_token_spec(stx, entity, label, v2).1 == pseudonym_token_spec(st, entity, label, v1).1 {
        lemma_lettered_token_injective(label, letters((i2 - 1) as nat), letters((i1 - 1) as nat));
        lemma_letters_injective((i2 - 1) as nat, (i1 - 1) as nat);
    }
}

/// Law (distinguishable names): two different Azure resource or
/// resource-group names never get the same token.
pub proof fn lemma_azure_name_tokens_distinct(st: StoreView, n1: Seq<char>, n2: Seq<char>, stx: StoreView)
    requires
        st.wf(),
        stx.wf(),
        stx.grows_from(azure_name_token_spec(st, n1).0),
        n1 != n2,
    ensures
        azure_name_token_spec(stx, n2).1 != azure_name_token_spec(st, n1).1,
{
    let i1 = st.azure_name(n1).1;
    lemma_intern_grows(st.azure_names, n1);
    let tx = stx.azure_names;
    assert(tx[i1 - 1] == n1);
    lemma_intern_grows(tx, n2);
    let i2 = intern_spec(tx, n2).1;
    assert(intern_spec(tx, n2).0[i1 - 1] == n1);
    if azure_name_token_spec(stx, n2).1 == azure_name_token_spec(st, n1).1 {
        lemma_lettered_token_injective("AZURE_NAME"@, letters((i2 - 1) as nat), letters((i1 - 1) as nat));
        lemma_letters_injective((i2 - 1) as nat, (i1 - 1) as nat);
    }
}

/// Where an IPv4 span is placed: its subnet and its address, or `None` when
/// it is left as it is (not an address, or allowlisted).
pub open spec fn ipv4_placement(cfg: Config, st: StoreView, m: Seq<char>) -> Option<(SubnetKey, u128)> {
    let b = encode_utf8(m);
    let p = prefix_split(b).1;
    match ipv4_text_value(candidate_addr(b)) {
        None => None,
        Some(a) => if crate::allowlist::ipv4_allowlisted(a, cfg.extra_ipv4_allowlist@) {
            None
        } else {
            let chosen = match p {
                Some(pp) => pp,
                None => match st.hint_for(false, a as u128) {
                    Some(h) => h,
                    None => cfg.ipv4_default_prefix,
                },
            };
            let prefix = capped(chosen, 32);
            let net = crate::ip::network_value(a as nat, 32, prefix as nat);
            Some((SubnetKey { v6: false, network: net as u128, prefix }, a as u128))
        },
    }
}

/// The IPv4 token of span `m` placed in subnet `label`, host `host`.
pub open spec fn ipv4_token_of(m: Seq<char>, label: nat, host: nat) -> Seq<char> {
    ip_token_text("IPv4"@, letters(label), host, prefix_split(encode_utf8(m)).1)
}

/// The placement of an IPv4 span decides its token: subnet `label`, host
/// `host`, in the store that comes out.
proof fn lemma_anon_ipv4_placed(cfg: Config, st: StoreView, m: Seq<char>)
    requires
        st.wf(),
        ipv4_placement(cfg, st, m) is Some,
    ensures
        ({
            let (key, addr) = ipv4_placement(cfg, st, m)->0;
            let (s1, t) = anon_ipv4_spec(cfg, st, m);
            exists|label: nat, host: nat|
                {
                    &&& t == ipv4_token_of(m, label, host)
                    &&& label < s1.subnets.len()
                    &&& s1.subnets[label as int] == key
                    &&& 1 <= host <= s1.hosts[label as int].len()
                    &&& s1.hosts[label as int][host - 1] == addr
                }
        }),
{
    let b = encode_utf8(m);
    let p = prefix_split(b).1;
    let a = ipv4_text_value(candidate_addr(b))->0;
    let key = a as u128;
    let sa = match p {
        Some(pp) => st.with_hint(false, key, capped(pp, 32)),
        None => st,
    };
    match p {
        Some(pp) => st.lemma_with_hint_grows(false, key, capped(pp, 32)),
        None => {},
    }
    let placed = ipv4_placement(cfg, st, m)->0;
    let sk = placed.0;
    assert(sk == ({
        let chosen = match p {
            Some(pp) => pp,
            None => match sa.hint_for(false, key) {
                Some(h) => h,
                None => cfg.ipv4_default_prefix,
            },
        };
        let prefix = capped(chosen, 32);
        SubnetKey { v6: false, network: crate::ip::network_value(a as nat, 32, prefix as nat) as u128, prefix }
    }));
    sa.lemma_subnet_label_grows(sk);
    let (sb, label) = sa.subnet_label(sk);
    sb.lemma_host_index_grows(label, key);
    lemma_intern_grows(sb.hosts[label as int], key);
    let (s1, host) = sb.host_index(label, key);
    assert(s1.subnets == sb.subnets);
    assert(s1.hosts[label as int] == intern_spec(sb.hosts[label as int], key).0);
    assert(anon_ipv4_spec(cfg, st, m).1 == ipv4_token_of(m, label, host));
}

/// Law (subnet-preserving addresses): of two IPv4 addresses scrubbed one
/// after the other, the second gets the same `net-` label as the first
/// exactly when it is placed in the same subnet; and two different
/// addresses in the same subnet get different host numbers.
pub proof fn lemma_ipv4_subnet_labels(cfg: Config, st: StoreView, m1: Seq<char>, m2: Seq<char>)
    requires
        st.wf(),
        ipv4_placement(cfg, st, m1) is Some,
        ipv4_placement(cfg, anon_ipv4_spec(cfg, st, m1).0, m2) is Some,
    ensures
        ({
            let (k1, a1) = ipv4_placement(cfg, st, m1)->0;
            let (st1, t1) = anon_ipv4_spec(cfg, st, m1);
            let (k2, a2) = ipv4_placement(cfg, st1, m2)->0;
            let t2 = anon_ipv4_spec(cfg, st1, m2).1;
            exists|l1: nat, h1: nat, l2: nat, h2: nat|
                {
                    &&& t1 == ipv4_token_of(m1, l1, h1)
                    &&& t2 == ipv4_token_of(m2, l2, h2)
                    &&& (l1 == l2 <==> k1 == k2)
                    &&& (k1 == k2 && a1 != a2 ==> h1 != h2)
                }
        }),
{
    let (k1, a1) = ipv4_placement(cfg, st, m1)->0;
    let (st1, t1) = anon_ipv4_spec(cfg, st, m1);
    lemma_anon_ipv4_grows(cfg, st, m1);
    lemma_anon_ipv4_placed(cfg, st, m1);
    let (l1, h1) = choose|label: nat, host: nat|
        {
            &&& t1 == ipv4_token_of(m1, label, host)
            &&& label < st1.subnets.len()
            &&& st1.subnets[label as int] == k1
            &&& 1 <= host <= st1.hosts[label as int].len()
            &&& st1.hosts[label as int][host - 1] == a1
        };
    let (k2, a2) = ipv4_placement(cfg, st1, m2)->0;
    let (st2, t2) = anon_ipv4_spec(cfg, st1, m2);
    lemma_anon_ipv4_grows(cfg, st1, m2);
    lemma_anon_ipv4_placed(cfg, st1, m2);
    let (l2, h2) = choose|label: nat, host: nat|
        {
            &&& t2 == ipv4_token_of(m2, label, host)
            &&& label < st2.subnets.len()
            &&& st2.subnets[label as int] == k2
            &&& 1 <= host <= st2.hosts[label as int].len()
            &&& st2.hosts[label as int][host - 1] == a2
        };
    assert(st2.subnets[l1 as int] == k1);
    if k1 == k2 {
        assert(st2.subnets.no_duplicates());
        assert(l1 == l2);
        assert(keeps_entries(st2.hosts[l1 as int], st1.hosts[l1 as int]));
        assert(st2.hosts[l1 as int][h1 - 1] == a1);
    }
    assert(t1 == ipv4_token_of(m1, l1, h1) && t2 == ipv4_token_of(m2, l2, h2));
}

/// Where an IPv6 span is placed: its subnet and its address, or `None` when
/// it is left as it is (not an address, or allowlisted).
pub open spec fn ipv6_placement(cfg: Config, st: StoreView, m: Seq<char>) -> Option<(SubnetKey, u128)> {
    let b = encode_utf8(m);
    let p = prefix_split(b).1;
    match ipv6_text_value(without_zone(candidate_addr(b))) {
        None => None,
        Some(a) => if crate::allowlist::ipv6_allowlisted(a) {
            None
        } else {
            let chosen = match p {
                Some(pp) => pp,
                None => match st.hint_for(true, a) {
                    Some(h) => h,
                    None => cfg.ipv6_default_prefix,
                },
            };
            let prefix = capped(chosen, 128);
            let net = crate::ip::network_value(a as nat, 128, prefix as nat);
            Some((SubnetKey { v6: true, network: net as u128, prefix }, a))
        },
    }
}

/// The IPv6 token of span `m` placed in subnet `label`, host `host`.
pub open spec fn ipv6_token_of(m: Seq<char>, label: nat, host: nat) -> Seq<char> {
    ip_token_text("IPv6"@, letters(label), host, prefix_split(encode_utf8(m)).1)
}

/// The placement of an IPv6 span decides its token: subnet `label`, host
/// `host`, in the store that comes out.
proof fn lemma_anon_ipv6_placed(cfg: Config, st: StoreView, m: Seq<char>)
    requires
        st.wf(),
        ipv6_placement(cfg, st, m) is Some,
    ensures
        ({
            let (key, addr) = ipv6_placement(cfg, st, m)->0;
            let (s1, t) = anon_ipv6_spec(cfg, st, m);
            exists|label: nat, host: nat|
                {
                    &&& t == ipv6_token_of(m, label, host)
                    &&& label < s1.subnets.len()
                    &&& s1.subnets[label as int] == key
                    &&& 1 <= host <= s1.hosts[label as int].len()
                    &&& s1.hosts[label as int][host - 1] == addr
                }
        }),
{
    let b = encode_utf8(m);
    let p = prefix_split(b).1;
    let a = ipv6_text_value(without_zone(candidate_addr(b)))->0;
    let key = a;
    let sa = match p {
        Some(pp) => st.with_hint(true, key, capped(pp, 128)),
        None => st,
    };
    match p {
        Some(pp) => st.lemma_with_hint_grows(true, key, capped(pp, 128)),
        None => {},
    }
    let placed = ipv6_placement(cfg, st, m)->0;
    let sk = placed.0;
    assert(sk == ({
        let chosen = match p {
            Some(pp) => pp,
            None => match sa.hint_for(true, key) {
                Some(h) => h,
                None => cfg.ipv6_default_prefix,
            },
        };
        let prefix = capped(chosen, 128);
        SubnetKey { v6: true, network: crate::ip::network_value(a as nat, 128, prefix as nat) as u128, prefix }
    }));
    sa.lemma_subnet_label_grows(sk);
    let (sb, label) = sa.subnet_label(sk);
    sb.lemma_host_index_grows(label, key);
    lemma_intern_grows(sb.hosts[label as int], key);
    let (s1, host) = sb.host_index(label, key);
    assert(s1.subnets == sb.subnets);
    assert(s1.hosts[label as int] == intern_spec(sb.hosts[label as int], key).0);
    assert(anon_ipv6_spec(cfg, st, m).1 == ipv6_token_of(m, label, host));
}

/// Law (subnet-preserving addresses): of two IPv6 addresses scrubbed one
/// after the other, the second gets the same `net-` label as the first
/// exactly when it is placed in the same subnet; and two different
/// addresses in the same subnet get different host numbers.
pub proof fn lemma_ipv6_subnet_labels(cfg: Config, st: StoreView, m1: Seq<char>, m2: Seq<char>)
    requires
        st.wf(),
        ipv6_placement(cfg, st, m1) is Some,
        ipv6_placement(cfg, anon_ipv6_spec(cfg, st, m1).0, m2) is Some,
    ensures
        ({
            let (k1, a1) = ipv6_placement(cfg, st, m1)->0;
            let (st1, t1) = anon_ipv6_spec(cfg, st, m1);
            let (k2, a2) = ipv6_placement(cfg, st1, m2)->0;
            let t2 = anon_ipv6_spec(cfg, st1, m2).1;
            exists|l1: nat, h1: nat, l2: nat, h2: nat|
                {
                    &&& t1 == ipv6_token_of(m1, l1, h1)
                    &&& t2 == ipv6_token_of(m2, l2, h2)
                    &&& (l1 == l2 <==> k1 == k2)
                    &&& (k1 == k2 && a1 != a2 ==> h1 != h2)
                }
        }),
{
    let (k1, a1) = ipv6_placement(cfg, st, m1)->0;
    let (st1, t1) = anon_ipv6_spec(cfg, st, m1);
    lemma_anon_ipv6_grows(cfg, st, m1);
    lemma_anon_ipv6_placed(cfg, st, m1);
    let (l1, h1) = choose|label: nat, host: nat|
        {
            &&& t1 == ipv6_token_of(m1, label, host)
            &&& label < st1.subnets.len()
            &&& st1.subnets[label as int] == k1
            &&& 1 <= host <= st1.hosts[label as int].len()
            &&& st1.hosts[label as int][host - 1] == a1
        };
    let (k2, a2) = ipv6_placement(cfg, st1, m2)->0;
    let (st2, t2) = anon_ipv6_spec(cfg, st1, m2);
    lemma_anon_ipv6_grows(cfg, st1, m2);
    lemma_anon_ipv6_placed(cfg, st1, m2);
    let (l2, h2) = choose|label: nat, host: nat|
        {
            &&& t2 == ipv6_token_of(m2, label, host)
            &&& label < st2.subnets.len()
            &&& st2.subnets[label as int] == k2
            &&& 1 <= host <= st2.hosts[label as int].len()
            &&& st2.hosts[label as int][host - 1] == a2
        };
    assert(st2.subnets[l1 as int] == k1);
    if k1 == k2 {
        assert(st2.subnets.no_duplicates());
        assert(l1 == l2);
        assert(keeps_entries(st2.hosts[l1 as int], st1.hosts[l1 as int]));
        assert(st2.hosts[l1 as int][h1 - 1] == a1);
    }
    assert(t1 == ipv6_token_of(m1, l1, h1) && t2 == ipv6_token_of(m2, l2, h2));
}

/// Law (`hint_cidr` groups bare occurrences): once `hint_cidr(ip, prefix)`
/// has recorded a prefix for an IPv4 address, a bare occurrence of that
/// address is placed in its network under that prefix (capped at 32).
pub proof fn lemma_hint_cidr_decides_ipv4_subnet(
    cfg: Config,
    st: StoreView,
    ip: Seq<char>,
    prefix: u8,
    a: u32,
    m: Seq<char>,
)
    requires
        st.wf(),
        ipv4_text_value(encode_utf8(ip)) == Some(a),
        hint_dependency(EntityType::Ipv4, m) == Some((false, a as u128)),
        !crate::allowlist::ipv4_allowlisted(a, cfg.extra_ipv4_allowlist@),
    ensures
        ipv4_placement(cfg, hint_cidr_spec(st, ip, prefix), m) == Some(
            (
                SubnetKey {
                    v6: false,
                    network: crate::ip::network_value(a as nat, 32, capped(prefix, 32) as nat) as u128,
                    prefix: capped(prefix, 32),
                },
                a as u128,
            ),
        ),
{
    st.lemma_with_hint_grows(false, a as u128, capped(prefix, 32));
    let b = encode_utf8(m);
    let a2 = ipv4_text_value(candidate_addr(b))->0;
    assert(a2 as u128 == a as u128);
    assert(a2 == a);
    assert(capped(capped(prefix, 32), 32) == capped(prefix, 32));
}

/// Law (`hint_cidr` groups bare occurrences), for IPv6: once
/// `hint_cidr(ip, prefix)` has recorded a prefix for an IPv6 address, a bare
/// occurrence of that address is placed in its network under that prefix
/// (capped at 128).
pub proof fn lemma_hint_cidr_decides_ipv6_subnet(
    cfg: Config,
    st: StoreView,
    ip: Seq<char>,
    prefix: u8,
    a: u128,
    m: Seq<char>,
)
    requires
        st.wf(),
        ipv4_text_value(encode_utf8(ip)) is None,
        ipv6_text_value(encode_utf8(ip)) == Some(a),
        hint_dependency(EntityType::Ipv6, m) == Some((true, a)),
        !crate::allowlist::ipv6_allowlisted(a),
    ensures
        ipv6_placement(cfg, hint_cidr_spec(st, ip, prefix), m) == Some(
            (
                SubnetKey {
                    v6: true,
                    network: crate::ip::network_value(a as nat, 128, capped(prefix, 128) as nat) as u128,
                    prefix: capped(prefix, 128),
                },
                a,
            ),
        ),
{
    st.lemma_with_hint_grows(true, a, capped(prefix, 128));
    assert(capped(capped(prefix, 128), 128) == capped(prefix, 128));
}

/// Law (a bare address after its CIDR form): once `a/p` has been replaced,
/// a later bare occurrence of `a` gets the same `net-` label and host number,
/// that is the same token without the `/p` — as long as the prefix recorded
/// for `a` was not replaced in between (by `hint_cidr` or by `a` with
/// another suffix).
pub proof fn lemma_bare_after_cidr_ipv4(
    cfg: Config,
    st: StoreView,
    m1: Seq<char>,
    p: u8,
    a: u32,
    m2: Seq<char>,
    st2: StoreView,
)
    requires
        st.wf(),
        st2.wf(),
        prefix_split(encode_utf8(m1)).1 == Some(p),
        ipv4_text_value(candidate_addr(encode_utf8(m1))) == Some(a),
        !crate::allowlist::ipv4_allowlisted(a, cfg.extra_ipv4_allowlist@),
        hint_dependency(EntityType::Ipv4, m2) == Some((false, a as u128)),
        st2.grows_from(anon_ipv4_spec(cfg, st, m1).0),
        st2.hint_for(false, a as u128) == anon_ipv4_spec(cfg, st, m1).0.hint_for(false, a as u128),
    ensures
        anon_ipv4_spec(cfg, st2, m2).1 + "/"@ + decimal(p as nat) == anon_ipv4_spec(cfg, st, m1).1,
{
    let key = a as u128;
    let c = capped(p, 32);
    let s1a = st.with_hint(false, key, c);
    st.lemma_with_hint_grows(false, key, c);
    let net = crate::ip::network_value(a as nat, 32, c as nat);
    let sk = SubnetKey { v6: false, network: net as u128, prefix: c };
    lemma_subnet_host_grows(s1a, sk, key);
    let (sb, label) = s1a.subnet_label(sk);
    let (s1, host) = sb.host_index(label, key);
    assert(anon_ipv4_spec(cfg, st, m1) == (s1, ip_token_text("IPv4"@, letters(label), host, Some(p))));
    assert(s1.hint_for(false, key) == Some(c));
    let b2 = encode_utf8(m2);
    let a2 = ipv4_text_value(candidate_addr(b2))->0;
    assert(a2 == a);
    assert(capped(c, 32) == c);
    lemma_subnet_host_stable(s1a, sk, key, st2);
    assert(anon_ipv4_spec(cfg, st2, m2).1 == ip_token_text("IPv4"@, letters(label), host, None));
    let base = "[["@ + "IPv4"@ + "|net-"@ + letters(label) + "|h"@ + decimal(host) + "]]"@;
    assert(ip_token_text("IPv4"@, letters(label), host, None) =~= base);
    assert(ip_token_text("IPv4"@, letters(label), host, Some(p)) =~= base + "/"@ + decimal(p as nat));
}

/// The label of the pseudonym tokens of GUIDs, emails and hostnames.
pub open spec fn pseudonym_label(entity: EntityType) -> Seq<char> {
    match entity {
        EntityType::Guid => "GUID"@,
        EntityType::Email => "EMAIL"@,
        _ => "HOST"@,
    }
}

/// Law (correlation, both ways): for GUIDs, emails and hostnames, a span
/// replaced now gets the token an earlier span of the same type got, in any
/// store grown from the one that replacement left behind, exactly when the
/// two spans are the same value up to case.
pub proof fn lemma_pseudonym_same_token_iff(
    cfg: Config,
    st: StoreView,
    entity: EntityType,
    m1: Seq<char>,
    m2: Seq<char>,
    stx: StoreView,
)
    requires
        st.wf(),
        stx.wf(),
        entity == EntityType::Guid || entity == EntityType::Email || entity == EntityType::Hostname,
        stx.grows_from(apply_spec(cfg, st, entity, m1).0),
    ensures
        apply_spec(cfg, stx, entity, m2).1 == apply_spec(cfg, st, entity, m1).1 <==> unicode_lowercase(m1)
            == unicode_lowercase(m2),
{
    let l = pseudonym_label(entity);
    let v1 = unicode_lowercase(m1);
    let v2 = unicode_lowercase(m2);
    assert(apply_spec(cfg, st, entity, m1) == pseudonym_token_spec(st, entity, l, v1));
    assert(apply_spec(cfg, stx, entity, m2) == pseudonym_token_spec(stx, entity, l, v2));
    if v1 == v2 {
        lemma_pseudonym_token_stable(st, entity, l, v1, stx);
    } else {
        lemma_pseudonym_tokens_distinct(st, entity, l, v1, v2, stx);
    }
}

/// The store after the first `n` steps of scrubbing has grown from the store
/// after the first `k <= n`.
proof fn lemma_scrub_fold_later_grows(
    cfg: Config,
    st: StoreView,
    text: Seq<char>,
    spans: Seq<RecognizerResult>,
    k: nat,
    n: nat,
)
    requires
        st.wf(),
        k <= n,
    ensures
        scrub_fold(cfg, st, text, spans, n).0.grows_from(scrub_fold(cfg, st, text, spans, k).0),
    decreases n,
{
    if n == k {
        lemma_grows_refl(scrub_fold(cfg, st, text, spans, k).0);
    } else {
        lemma_scrub_fold_later_grows(cfg, st, text, spans, k, (n - 1) as nat);
        lemma_scrub_fold_grows(cfg, st, text, spans, (n - 1) as nat);
        let (s1, out, cur) = scrub_fold(cfg, st, text, spans, (n - 1) as nat);
        let sp = spans[n - 1];
        if sp.start >= cur {
            lemma_apply_grows(cfg, s1, sp.entity, crate::text::chars_in(encode_utf8(text), sp.start as int, sp.end as int));
        } else {
            lemma_grows_refl(s1);
        }
        lemma_grows_trans(scrub_fold(cfg, st, text, spans, k).0, s1, scrub_fold(cfg, st, text, spans, n).0);
    }
}

/// The `k`-th span is replaced when scrubbing (it starts at or after the end
/// of what was consumed before it).
pub open spec fn scrub_replaces(cfg: Config, st: StoreView, text: Seq<char>, spans: Seq<RecognizerResult>, k: int) -> bool {
    spans[k].start >= scrub_fold(cfg, st, text, spans, k as nat).2
}

/// The text of the `k`-th span.
pub open spec fn span_text(text: Seq<char>, sp: RecognizerResult) -> Seq<char> {
    crate::text::chars_in(encode_utf8(text), sp.start as int, sp.end as int)
}

/// The token the `k`-th span is replaced by.
pub open spec fn scrub_token(cfg: Config, st: StoreView, text: Seq<char>, spans: Seq<RecognizerResult>, k: int) -> Seq<char> {
    apply_spec(cfg, scrub_fold(cfg, st, text, spans, k as nat).0, spans[k].entity, span_text(text, spans[k])).1
}

/// Law (correlation within scrubbing): of two GUID, email or hostname spans
/// replaced while scrubbing a text, the later one gets the earlier one's
/// token exactly when the two are the same value up to case. Across calls
/// the same holds by `lemma_pseudonym_same_token_iff`, since every scrubbing
/// call leaves a store grown from the one it found.
pub proof fn lemma_scrub_same_token_iff(
    cfg: Config,
    st: StoreView,
    text: Seq<char>,
    spans: Seq<RecognizerResult>,
    i: int,
    j: int,
)
    requires
        st.wf(),
        0 <= i < j < spans.len(),
        scrub_replaces(cfg, st, text, spans, i),
        scrub_replaces(cfg, st, text, spans, j),
        spans[i].entity == spans[j].entity,
        spans[i].entity == EntityType::Guid || spans[i].entity == EntityType::Email || spans[i].entity
            == EntityType::Hostname,
    ensures
        scrub_token(cfg, st, text, spans, j) == scrub_token(cfg, st, text, spans, i) <==> unicode_lowercase(
            span_text(text, spans[i]),
        ) == unicode_lowercase(span_text(text, spans[j])),
{
    lemma_scrub_fold_grows(cfg, st, text, spans, i as nat);
    lemma_scrub_fold_grows(cfg, st, text, spans, j as nat);
    lemma_scrub_fold_later_grows(cfg, st, text, spans, (i + 1) as nat, j as nat);
    let si = scrub_fold(cfg, st, text, spans, i as nat).0;
    assert(scrub_fold(cfg, st, text, spans, (i + 1) as nat).0 == apply_spec(
        cfg,
        si,
        spans[i].entity,
        span_text(text, spans[i]),
    ).0);
    lemma_pseudonym_same_token_iff(
        cfg,
        si,
        spans[i].entity,
        span_text(text, spans[i]),
        span_text(text, spans[j]),
        scrub_fold(cfg, st, text, spans, j as nat).0,
    );
}

/// The OUI part (up to the end of the third group) of a MAC span, when the
/// span has the six groups of a MAC address.
pub open spec fn mac_oui(m: Seq<char>) -> Option<Seq<char>> {
    let b = encode_utf8(m);
    let sep: u8 = if crate::bytes::has_byte(b, crate::netaddr::COLON) {
        crate::netaddr::COLON
    } else {
        crate::engine::HYPHEN
    };
    let r = crate::bytes::split_ranges(b, sep);
    if r.len() == 6 {
        Some(crate::text::chars_in(b, 0, r[2].1))
    } else {
        None
    }
}

/// Device tokens under one OUI differ when their numbers differ.
proof fn lemma_mac_token_injective(oui: Seq<char>, d1: nat, d2: nat)
    requires
        mac_token_text(oui, d1) == mac_token_text(oui, d2),
    ensures
        d1 == d2,
{
    let head = "[[MAC|"@ + oui + "|dev"@;
    let t1 = mac_token_text(oui, d1);
    let t2 = mac_token_text(oui, d2);
    assert(t1 == head + decimal(d1) + "]]"@);
    assert(t2 == head + decimal(d2) + "]]"@);
    assert(decimal(d1).len() == decimal(d2).len());
    assert(decimal(d1) =~= t1.subrange(head.len() as int, (head.len() + decimal(d1).len()) as int));
    assert(decimal(d2) =~= t2.subrange(head.len() as int, (head.len() + decimal(d2).len()) as int));
    crate::text::lemma_decimal_injective(d1, d2);
}

/// Law (MAC correlation up to case): of two MAC spans whose OUIs are the same
/// up to case, the later one — in any store grown from the one the earlier
/// one's replacement left behind — gets the earlier one's device number
/// exactly when the two addresses are the same up to case.
pub proof fn lemma_mac_same_device_iff(
    st: StoreView,
    m1: Seq<char>,
    o1: Seq<char>,
    m2: Seq<char>,
    o2: Seq<char>,
    stx: StoreView,
)
    requires
        st.wf(),
        stx.wf(),
        stx.grows_from(anon_mac_spec(st, m1).0),
        mac_oui(m1) == Some(o1),
        mac_oui(m2) == Some(o2),
        unicode_lowercase(o1) == unicode_lowercase(o2),
    ensures
        (exists|d: nat|
            anon_mac_spec(st, m1).1 == #[trigger] mac_token_text(o1, d) && anon_mac_spec(stx, m2).1
                == mac_token_text(o2, d)) <==> unicode_lowercase(m1) == unicode_lowercase(m2),
{
    let lo = unicode_lowercase(o1);
    let l1 = unicode_lowercase(m1);
    let l2 = unicode_lowercase(m2);
    let (s1, i1) = st.mac_index(lo, l1);
    let (sx, i2) = stx.mac_index(lo, l2);
    assert(anon_mac_spec(st, m1) == (s1, mac_token_text(o1, i1)));
    assert(anon_mac_spec(stx, m2) == (sx, mac_token_text(o2, i2)));
    if l1 == l2 {
        st.lemma_mac_index_stable(lo, l1, stx);
        assert(mac_token_text(o1, i1) == mac_token_text(o1, i1) && mac_token_text(o2, i2) == mac_token_text(
            o2,
            i1,
        ));
    } else {
        st.lemma_mac_index_grows(lo, l1);
        st.lemma_mac_index_position(lo, l1);
        let g = choose|g: int|
            0 <= g < s1.macs.len() && #[trigger] s1.macs[g].0 == lo && 1 <= i1 <= s1.macs[g].1.len()
                && s1.macs[g].1[i1 - 1] == l1;
        assert(crate::store::keeps_entries(stx.macs[g].1, s1.macs[g].1));
        assert(stx.macs[g].1[i1 - 1] == l1);
        let ouis = crate::store::mac_ouis(stx.macs);
        assert(crate::store::mac_ouis(s1.macs)[g] == lo);
        assert(ouis[g] == lo);
        crate::store::lemma_index_of_unique(ouis, g, lo);
        lemma_intern_grows(stx.macs[g].1, l2);
        let t = intern_spec(stx.macs[g].1, l2).0;
        assert(i2 == intern_spec(stx.macs[g].1, l2).1);
        assert(t[i2 - 1] == l2);
        assert(t[i1 - 1] == l1);
        assert(i1 != i2);
        if exists|d: nat|
            mac_token_text(o1, i1) == #[trigger] mac_token_text(o1, d) && mac_token_text(o2, i2)
                == mac_token_text(o2, d) {
            let d = choose|d: nat|
                mac_token_text(o1, i1) == #[trigger] mac_token_text(o1, d) && mac_token_text(o2, i2)
                    == mac_token_text(o2, d);
            lemma_mac_token_injective(o1, i1, d);
            lemma_mac_token_injective(o2, i2, d);
        }
    }
}

} // verus!

//! Secret / credential recognizer. High score, fail-safe redaction.
//!
//! Detects `key=value` / `key: value` secrets, `Bearer <token>` authorization
//! values, and PEM private-key blocks. For `key=value` and bearer forms only
//! the value span is reported so the key stays visible for debugging
//! (`password=[[SECRET]]`); PEM blocks are reported whole.

use vstd::prelude::*;
use crate::pattern::{find_spans, group_spans, regex_find_spans, regex_group_spans};
use super::{
    lemma_hits_satisfy,
    concat_results, group_hits_of, hits_of, results_in_text, tag_all, tag_all_spec, tag_groups,
    tag_groups_spec, EntityType, Recognizer, RecognizerResult,
};

verus! {

/// `key=value` / `key: value` secrets, the value in group `val`.
pub const KV_PATTERN: &'static str = r#"(?i)\b(?:pass(?:word|wd)?|secret|client[_-]?secret|api[_-]?key|access[_-]?key|auth[_-]?token|token)\b\s*[:=]\s*"?(?P<val>[^\s"']+)"#;

/// `Bearer <token>` authorization values, the token in group `val`.
pub const BEARER_PATTERN: &'static str = r"(?i)\bbearer\s+(?P<val>[A-Za-z0-9._\-]+)";

/// A whole PEM private-key block.
pub const PEM_PATTERN: &'static str = r"(?s)-----BEGIN [A-Z ]*PRIVATE KEY-----.*?-----END [A-Z ]*PRIVATE KEY-----";

/// The capture group holding a secret value.
pub const VALUE_GROUP: &'static str = "val";

/// The value of every `key=value` secret, then every bearer token (score
/// 95), then every PEM private-key block (score 99).
pub open spec fn secret_hits(text: Seq<char>) -> Seq<RecognizerResult> {
    group_hits_of(
        regex_group_spans(KV_PATTERN@, text, VALUE_GROUP@),
        tag_groups_spec(EntityType::Secret, 95),
    ) + group_hits_of(
        regex_group_spans(BEARER_PATTERN@, text, VALUE_GROUP@),
        tag_groups_spec(EntityType::Secret, 95),
    ) + hits_of(regex_find_spans(PEM_PATTERN@, text), tag_all_spec(EntityType::Secret, 99))
}

/// The shape of a secret report: a `Secret` with score 95 (a value) or 99 (a
/// whole PEM block).
pub open spec fn secret_report(r: RecognizerResult) -> bool {
    r.entity == EntityType::Secret && (r.score == 95 || r.score == 99)
}

/// Law: every secret report is a `Secret` with score 95 or 99 (and, by the
/// recognizer's contract, a match range of the text).
pub proof fn lemma_secret_hits(text: Seq<char>)
    ensures
        forall|r: RecognizerResult| #[trigger] secret_hits(text).contains(r) ==> secret_report(r),
{
    let fg = tag_groups_spec(EntityType::Secret, 95);
    let fp = tag_all_spec(EntityType::Secret, 99);
    let p = |r: RecognizerResult| secret_report(r);
    assert(forall|g: Option<(usize, usize)>| #[trigger] fg(g) matches Some(x) ==> p(x));
    assert(forall|g: (usize, usize)| #[trigger] fp(g) matches Some(x) ==> p(x));
    let fa = regex_group_spans(KV_PATTERN@, text, VALUE_GROUP@);
    let fb = regex_group_spans(BEARER_PATTERN@, text, VALUE_GROUP@);
    let fc = regex_find_spans(PEM_PATTERN@, text);
    match fa {
        Some(v) => lemma_hits_satisfy(v, fg, p),
        None => {},
    }
    match fb {
        Some(v) => lemma_hits_satisfy(v, fg, p),
        None => {},
    }
    match fc {
        Some(v) => lemma_hits_satisfy(v, fp, p),
        None => {},
    }
    let ha = group_hits_of(fa, fg);
    let hb = group_hits_of(fb, fg);
    let hc = hits_of(fc, fp);
    assert(secret_hits(text) == ha + hb + hc);
    assert forall|r: RecognizerResult| #[trigger] (ha + hb + hc).contains(r) implies secret_report(r) by {
        let all = ha + hb + hc;
        let k = choose|k: int| 0 <= k < all.len() && all[k] == r;
        if k < ha.len() {
            assert(ha[k] == r);
            assert(ha.contains(r));
        } else if k < ha.len() + hb.len() {
            assert(hb[k - ha.len()] == r);
            assert(hb.contains(r));
        } else {
            assert(hc[k - ha.len() - hb.len()] == r);
            assert(hc.contains(r));
        }
    }
}

pub struct SecretRecognizer;

impl SecretRecognizer {
    pub fn new() -> (r: Self)
        ensures
            r == SecretRecognizer,
    {
        SecretRecognizer
    }
}

impl Recognizer for SecretRecognizer {
    fn recognize(&self, text: &str) -> (r: Vec<RecognizerResult>)
        ensures
            r@ == secret_hits(text@),
            results_in_text(r@, text@),
    {
        let kv = tag_groups(group_spans(KV_PATTERN, text, VALUE_GROUP), EntityType::Secret, 95, Ghost(text@));
        let bearer = tag_groups(
            group_spans(BEARER_PATTERN, text, VALUE_GROUP),
            EntityType::Secret,
            95,
            Ghost(text@),
        );
        let pem = tag_all(find_spans(PEM_PATTERN, text), EntityType::Secret, 99, Ghost(text@));
        let first = concat_results(kv, bearer, Ghost(text@));
        concat_results(first, pem, Ghost(text@))
    }
}

} // verus!

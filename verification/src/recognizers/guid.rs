//! GUID / UUID recognizer (covers Azure subscription and tenant IDs and any other canonical-form GUID).

use vstd::prelude::*;
use crate::pattern::{find_spans, regex_find_spans};
use super::{results_in_order, hits_of, results_in_text, tag_all, tag_all_spec, EntityType, Recognizer, RecognizerResult};

verus! {

pub const GUID_PATTERN: &'static str = r"\b[0-9A-Fa-f]{8}-[0-9A-Fa-f]{4}-[0-9A-Fa-f]{4}-[0-9A-Fa-f]{4}-[0-9A-Fa-f]{12}\b";

/// Every match of the pattern, reported as `Guid` with score 85.
pub open spec fn guid_hits(text: Seq<char>) -> Seq<RecognizerResult> {
    hits_of(regex_find_spans(GUID_PATTERN@, text), tag_all_spec(EntityType::Guid, 85))
}

pub struct GuidRecognizer;

impl GuidRecognizer {
    pub fn new() -> (r: Self)
        ensures
            r == GuidRecognizer,
    {
        GuidRecognizer
    }
}

impl Recognizer for GuidRecognizer {
    fn recognize(&self, text: &str) -> (r: Vec<RecognizerResult>)
        ensures
            r@ == guid_hits(text@),
            results_in_text(r@, text@),
            results_in_order(r@),
    {
        tag_all(find_spans(GUID_PATTERN, text), EntityType::Guid, 85, Ghost(text@))
    }
}

} // verus!

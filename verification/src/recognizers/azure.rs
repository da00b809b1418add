//! Azure Resource Manager resource-ID recognizer. An ARM id starting at `/subscriptions/<guid>` and running to the next whitespace or quote is one high-score span, so it wins overlap resolution against the GUID recognizer that would otherwise match the subscription id inside it.

use vstd::prelude::*;
use crate::pattern::{find_spans, regex_find_spans};
use super::{results_in_order, hits_of, results_in_text, tag_all, tag_all_spec, EntityType, Recognizer, RecognizerResult};

verus! {

pub const RESOURCE_ID_PATTERN: &'static str = r#"(?i)/subscriptions/[0-9a-f]{8}-[0-9a-f]{4}-[0-9a-f]{4}-[0-9a-f]{4}-[0-9a-f]{12}(?:/[^\s"']+)*"#;

/// Every match of the pattern, reported as `AzureResourceId` with score 90.
pub open spec fn azure_hits(text: Seq<char>) -> Seq<RecognizerResult> {
    hits_of(regex_find_spans(RESOURCE_ID_PATTERN@, text), tag_all_spec(EntityType::AzureResourceId, 90))
}

pub struct AzureResourceIdRecognizer;

impl AzureResourceIdRecognizer {
    pub fn new() -> (r: Self)
        ensures
            r == AzureResourceIdRecognizer,
    {
        AzureResourceIdRecognizer
    }
}

impl Recognizer for AzureResourceIdRecognizer {
    fn recognize(&self, text: &str) -> (r: Vec<RecognizerResult>)
        ensures
            r@ == azure_hits(text@),
            results_in_text(r@, text@),
            results_in_order(r@),
    {
        tag_all(find_spans(RESOURCE_ID_PATTERN, text), EntityType::AzureResourceId, 90, Ghost(text@))
    }
}

} // verus!

//! MAC address recognizer. Matches 6-group colon- or hyphen-separated hex.

use vstd::prelude::*;
use crate::pattern::{find_spans, regex_find_spans};
use super::{results_in_order, hits_of, results_in_text, tag_all, tag_all_spec, EntityType, Recognizer, RecognizerResult};

verus! {

pub const MAC_PATTERN: &'static str = r"\b(?:[0-9A-Fa-f]{2}[:-]){5}[0-9A-Fa-f]{2}\b";

/// Every match of the pattern, reported as `Mac` with score 90.
pub open spec fn mac_hits(text: Seq<char>) -> Seq<RecognizerResult> {
    hits_of(regex_find_spans(MAC_PATTERN@, text), tag_all_spec(EntityType::Mac, 90))
}

pub struct MacRecognizer;

impl MacRecognizer {
    pub fn new() -> (r: Self)
        ensures
            r == MacRecognizer,
    {
        MacRecognizer
    }
}

impl Recognizer for MacRecognizer {
    fn recognize(&self, text: &str) -> (r: Vec<RecognizerResult>)
        ensures
            r@ == mac_hits(text@),
            results_in_text(r@, text@),
            results_in_order(r@),
    {
        tag_all(find_spans(MAC_PATTERN, text), EntityType::Mac, 90, Ghost(text@))
    }
}

} // verus!

//! Email address recognizer.

use vstd::prelude::*;
use crate::pattern::{find_spans, regex_find_spans};
use super::{results_in_order, hits_of, results_in_text, tag_all, tag_all_spec, EntityType, Recognizer, RecognizerResult};

verus! {

pub const EMAIL_PATTERN: &'static str = r"\b[A-Za-z0-9._%+-]+@[A-Za-z0-9.-]+\.[A-Za-z]{2,}\b";

/// Every match of the pattern, reported as `Email` with score 85.
pub open spec fn email_hits(text: Seq<char>) -> Seq<RecognizerResult> {
    hits_of(regex_find_spans(EMAIL_PATTERN@, text), tag_all_spec(EntityType::Email, 85))
}

pub struct EmailRecognizer;

impl EmailRecognizer {
    pub fn new() -> (r: Self)
        ensures
            r == EmailRecognizer,
    {
        EmailRecognizer
    }
}

impl Recognizer for EmailRecognizer {
    fn recognize(&self, text: &str) -> (r: Vec<RecognizerResult>)
        ensures
            r@ == email_hits(text@),
            results_in_text(r@, text@),
            results_in_order(r@),
    {
        tag_all(find_spans(EMAIL_PATTERN, text), EntityType::Email, 85, Ghost(text@))
    }
}

} // verus!

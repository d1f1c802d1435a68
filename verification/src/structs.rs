use vstd::prelude::*;

verus! {

/// A raw review: its text and its star rating.
#[derive(Debug, Clone)]
pub struct Review {
    pub review_text: String,
    pub review_stars: u8,
}

/// A review whose text has been cleaned into space-separated terms.
#[derive(Debug, Clone)]
pub struct PreprocessedReview {
    pub review_text: String,
    pub review_stars: u8,
}

} // verus!

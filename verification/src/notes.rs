//! A note the student keeps on a topic.
use vstd::prelude::*;

verus! {

/// A note: the topic it is kept on, and its body in Markdown.
#[derive(Debug, Clone, PartialEq, Eq)]
pub struct Note {
    pub topic: String,
    pub body: String,
}

} // verus!

//! Branching conversation content.
use vstd::prelude::*;

verus! {

/// Someone talking in a dialogue.
#[derive(Debug, PartialEq)]
pub struct Talk<'a> {
    /// Who is talking.
    pub who: &'a str,
    /// What is being said.
    pub what: &'a str,
}

/// A choice offered in a dialogue.
#[derive(Debug, PartialEq)]
pub struct Choice<'a> {
    /// What is being said.
    pub what: &'a str,
    /// The id of the node that follows.
    pub next: i32,
}

/// A node of a dialogue tree.
#[derive(Debug, PartialEq)]
pub struct StoryNode<'a> {
    /// The lines of the node.
    pub story: Vec<Talk<'a>>,
    /// The choices that lead on, if any.
    pub select: Option<Vec<Choice<'a>>>,
    /// Whether the node has been visited.
    pub visited: bool,
}

} // verus!

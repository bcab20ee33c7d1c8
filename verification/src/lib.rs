//! Parser for a single Org-mode outline heading line.
//!
//! A heading line consists of a run of `*` markers (the depth), an optional
//! status keyword, an optional `[#X]` priority cookie, and a title region that
//! may interleave a `[n%]` / `[n/m]` statistics cookie and a `:a:b:` tag list.
//! The parse is a single linear pass: every stage after the depth markers is
//! optional and recovers locally, so only a missing depth marker (or missing
//! separator after the markers) fails the whole parse.

use vstd::prelude::*;

pub mod headline;
pub mod scan;
pub mod tagset;
pub mod text;

use crate::headline::headline;
use crate::headline::headline_matches;
use crate::headline::headline_with;
use crate::headline::baseline_keywords;
use crate::headline::spec_headline_ok;
use crate::headline::Headline;
use crate::headline::ParseError;

verus! {

/// The processing context a document is parsed under: the set of recognized
/// heading keywords, and the minimum depth of inline tasks (owned by a later
/// layer).
pub struct OrgContext {
    pub keywords: Vec<String>,
    pub inlinetask_min_level: usize,
}

impl OrgContext {
    /// A context with the baseline keyword set.
    pub fn new() -> (r: OrgContext)
        ensures
            r.keywords.deep_view() == baseline_keywords(),
    {
        OrgContext { keywords: crate::headline::default_keywords(), inlinetask_min_level: 15 }
    }
}

/// The kinds of element a section body may hold; all owned by a later layer.
#[derive(Clone, Copy, Debug, PartialEq, Eq)]
pub enum OrgElement {
    Block,
    Drawer,
    PlainList,
    Footnote,
    Table,
    InlineTask,
}

/// A section body: the contents under a heading; owned by a later layer.
#[derive(Clone, Debug, PartialEq, Eq)]
pub struct OrgSection {
    pub contents: Vec<OrgElement>,
}

/// A heading wrapped with the document-level data a later layer attaches:
/// scheduling, deadline and closed timestamps, a property table, and the
/// section body.  This layer only wraps; every attached field starts empty.
#[derive(Clone, Debug, PartialEq, Eq)]
pub struct OrgNode {
    pub headline: Headline,
    pub scheduled: Option<String>,
    pub deadline: Option<String>,
    pub closed: Option<String>,
    pub properties: Vec<(String, String)>,
    pub body: Option<OrgSection>,
}

/// Node parser: parses one heading line and wraps it in a node whose
/// document-level fields are all unset.
pub fn node(input: &[u8]) -> (r: Result<(usize, OrgNode), ParseError>)
    ensures
        !spec_headline_ok(input@) ==> r == Err::<(usize, OrgNode), ParseError>(
            ParseError::StructuralError,
        ),
        spec_headline_ok(input@) ==> (r matches Ok(p) && headline_matches(
            input@,
            baseline_keywords(),
            p.0 as int,
            p.1.headline,
        ) && p.1.scheduled is None && p.1.deadline is None && p.1.closed is None
            && p.1.properties@.len() == 0 && p.1.body is None),
{
    match headline(input) {
        Ok((n, h)) => Ok(
            (
                n,
                OrgNode {
                    headline: h,
                    scheduled: None,
                    deadline: None,
                    closed: None,
                    properties: Vec::new(),
                    body: None,
                },
            ),
        ),
        Err(e) => Err(e),
    }
}

/// Node parser under an explicit context: the keyword set of the context
/// replaces the baseline set.
pub fn node_in_context(input: &[u8], context: &OrgContext) -> (r: Result<(usize, OrgNode),
    ParseError>)
    ensures
        !spec_headline_ok(input@) ==> r == Err::<(usize, OrgNode), ParseError>(
            ParseError::StructuralError,
        ),
        spec_headline_ok(input@) ==> (r matches Ok(p) && headline_matches(
            input@,
            context.keywords.deep_view(),
            p.0 as int,
            p.1.headline,
        ) && p.1.scheduled is None && p.1.deadline is None && p.1.closed is None
            && p.1.properties@.len() == 0 && p.1.body is None),
{
    match headline_with(input, &context.keywords) {
        Ok((n, h)) => Ok(
            (
                n,
                OrgNode {
                    headline: h,
                    scheduled: None,
                    deadline: None,
                    closed: None,
                    properties: Vec::new(),
                    body: None,
                },
            ),
        ),
        Err(e) => Err(e),
    }
}

} // verus!

//! Text actions: a new text made from the text that is there.

use crate::text::{replace_text, replaced};
use regex::Regex;
use vstd::prelude::*;

verus! {

/// `regex::Regex`, a compiled pattern. It is carried to the call that runs it;
/// nothing inside it is looked at.
#[verifier::external_type_specification]
#[verifier::external_body]
pub struct ExRegex(Regex);

/// What `Regex::replace_all` returns for a compiled pattern, the text it is run
/// on and the replacement, in which `$` refers to the groups of a match.
pub uninterp spec fn regex_replacement(re: Regex, text: Seq<char>, new: Seq<char>) -> Seq<char>;

/// Whether the compiled pattern has a match in `text`, as `Regex::is_match`
/// tells.
pub uninterp spec fn regex_matches(re: Regex, text: Seq<char>) -> bool;

/// Calls `Regex::replace_all`. The result is a function of the pattern, the
/// text and the replacement, and the crate documents that a text without a
/// match comes back unchanged.
#[verifier::external_body]
fn regex_replace_all(re: &Regex, text: &str, new: &str) -> (out: String)
    ensures
        out@ == regex_replacement(*re, text@, new@),
        !regex_matches(*re, text@) ==> out@ == text@,
{
    re.replace_all(text, new).into_owned()
}

/// Calls `Regex::is_match`, which says whether the pattern has a match
/// anywhere in the text.
#[verifier::external_body]
fn regex_is_match(re: &Regex, text: &str) -> (out: bool)
    ensures
        out == regex_matches(*re, text@),
{
    re.is_match(text)
}

/// What a text is replaced by.
#[derive(Debug, Clone)]
pub enum TextModify {
    /// The new text, whatever the old one is.
    Fixed(String),
    /// A replacement inside the old text.
    Complect(TextModifyComplext),
}

/// A replacement inside a text. With `origin`, every occurrence of that text
/// is replaced by `new`, and `re` is not looked at. Without `origin` and with
/// `re`, every match of the pattern is replaced by `new`. With neither, `new`
/// is the whole result.
#[derive(Debug, Clone)]
pub struct TextModifyComplext {
    pub origin: Option<String>,
    pub re: Option<Regex>,
    pub new: String,
}

impl TextModify {
    /// The text that the action makes of `text`.
    pub open spec fn applied(&self, text: Seq<char>) -> Seq<char> {
        match self {
            TextModify::Fixed(new) => new@,
            TextModify::Complect(md) => match (md.origin, md.re) {
                (Some(origin), _) => replaced(text, origin@, md.new@),
                (None, Some(re)) => regex_replacement(re, text, md.new@),
                (None, None) => md.new@,
            },
        }
    }

    /// The pattern whose matches the action replaces, if it is of that kind.
    pub open spec fn pattern(&self) -> Option<Regex> {
        match self {
            TextModify::Fixed(_) => None,
            TextModify::Complect(md) => if md.origin is None {
                md.re
            } else {
                None
            },
        }
    }

    /// Whether the action replaces the matches of a pattern and `text` holds
    /// one. Where it replaces the matches of a pattern and `text` holds none,
    /// the action leaves `text` as it is, however often it is applied.
    pub fn finds_match(&self, text: &str) -> (out: bool)
        ensures
            out == (self.pattern() matches Some(re) && regex_matches(re, text@)),
    {
        match self {
            TextModify::Fixed(_) => false,
            TextModify::Complect(md) => {
                if md.origin.is_some() {
                    return false;
                }
                match &md.re {
                    Some(re) => regex_is_match(re, text),
                    None => false,
                }
            },
        }
    }

    /// Applies the action to `text`. Where the action replaces the matches of
    /// a pattern and `text` holds none, `text` comes back as it is.
    pub fn exec_action(&self, text: &str) -> (out: String)
        ensures
            out@ == self.applied(text@),
            self.pattern() matches Some(re) && !regex_matches(re, text@) ==> out@ == text@,
    {
        match self {
            TextModify::Fixed(new) => new.clone(),
            TextModify::Complect(md) => {
                if let Some(origin) = &md.origin {
                    return replace_text(text, origin.as_str(), md.new.as_str());
                }
                if let Some(re) = &md.re {
                    return regex_replace_all(re, text, md.new.as_str());
                }
                md.new.clone()
            },
        }
    }
}

/// An action that sets a text yields that text, whatever the old text is.
pub proof fn lemma_fixed_is_new(new: String, text: Seq<char>)
    ensures
        TextModify::Fixed(new).applied(text) == new@,
{
}

/// A replacement without `origin` and without a pattern yields `new`, whatever
/// the old text is.
pub proof fn lemma_without_origin_is_new(md: TextModifyComplext, text: Seq<char>)
    requires
        md.origin is None,
        md.re is None,
    ensures
        TextModify::Complect(md).applied(text) == md.new@,
{
}

/// A replacement with `origin` yields the old text with every occurrence of
/// `origin` replaced by `new`, read from the left and without overlap.
pub proof fn lemma_with_origin_replaces(md: TextModifyComplext, text: Seq<char>)
    requires
        md.origin is Some,
    ensures
        TextModify::Complect(md).applied(text) == replaced(text, md.origin->0@, md.new@),
{
}

} // verus!

//! The rules: what to change in a request or a response.

use crate::action::TextModify;
use vstd::prelude::*;

verus! {

/// One change to the entry that `key` names in a map of headers or cookies.
///
/// With `remove` the entry is taken away and `value` is not looked at.
/// Otherwise `value`, where there is one, is applied to the text that the entry
/// holds, and without a `value` nothing is changed.
#[derive(Debug, Clone)]
pub struct MapModify {
    pub key: String,
    pub value: Option<TextModify>,
    pub remove: bool,
}

impl Default for MapModify {
    fn default() -> (out: MapModify)
        ensures
            out.key@ == Seq::<char>::empty(),
            out.value is None,
            !out.remove,
    {
        MapModify { key: String::new(), value: None, remove: false }
    }
}

/// A rule: changes to headers, changes to cookies, or a new body.
#[derive(Debug, Clone)]
pub enum Modify {
    /// Changes to header fields, made in this order.
    Header(Vec<MapModify>),
    /// Changes to cookies, made in this order.
    Cookies(Vec<MapModify>),
    /// The action that makes the new body from the old one.
    Body(TextModify),
}

} // verus!

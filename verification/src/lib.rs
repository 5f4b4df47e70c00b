//! Rewriting rules for the traffic of an intercepting HTTP proxy.
//!
//! A rule, [`Modify`], changes one side of an exchange before it is passed on:
//! its header fields, its cookies, or its body. The changes to fields and
//! cookies are lists of [`MapModify`] entries, each of which removes an entry
//! or makes a new text for it with a [`TextModify`] action.
//!
//! The library works on the headers, an `http::HeaderMap`, and on a body that
//! the caller has read or not, a [`Payload`]. It reads no stream itself:
//! `Modify::needs_body` says whether a rule looks at the body, and the caller
//! reads it then.
//!
//! The contracts speak of a header map as a map from field names to lists of
//! values (`headers`), of cookies as a sequence without repeated names
//! (`jar`), and of texts as sequences of characters (`text`).

pub mod action;
pub mod body;
pub mod cookie_edit;
pub mod header_edit;
pub mod headers;
pub mod jar;
pub mod modify;
pub mod rule;
pub mod text;

pub use crate::action::{TextModify, TextModifyComplext};
pub use crate::body::Payload;
pub use crate::modify::{Message, Reply, Rewritten};
pub use crate::rule::{MapModify, Modify};

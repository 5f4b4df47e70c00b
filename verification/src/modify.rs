//! Applying a rule to a request or to a response.
//!
//! A rule sees the headers and the body. The body is read by whoever calls:
//! `needs_body` says whether the rule will look at it.

use crate::action::TextModify;
use crate::body::{
    announces_text, body_rewritten, is_text_content, rewrite_body, Payload, PayloadView,
};
use crate::cookie_edit::{
    all_positions, crumbs_edited, crumbs_skipped, edit_request_cookies, edit_response_cookies,
    every_position, pair_edited, pair_skipped, request_cookies_fit, response_cookies_fit,
    sent_cookies, set_cookies, with_cookie_line, with_set_cookie_lines,
};
use crate::header_edit::{fields_edited, fields_skipped};
use crate::headers::header_fields;
use crate::rule::Modify;
use http::header::{HeaderMap, HeaderValue};
use vstd::prelude::*;

verus! {

/// A request or a response, as far as a rule looks at it.
#[derive(Debug)]
pub struct Message {
    pub headers: HeaderMap<HeaderValue>,
    pub body: Payload,
}

/// What a rule made of a request or a response.
#[derive(Debug)]
pub struct Rewritten {
    /// The headers and the body to send on.
    pub message: Message,
    /// The positions of the entries of the rule that were left out, because
    /// what they asked for could not be read or could not be written.
    pub skipped: Vec<usize>,
}

/// What to answer the client.
#[derive(Debug)]
pub enum Reply {
    /// The response as the rule left it.
    Forward(Rewritten),
    /// A response made up in place of the one that came: this status, no
    /// headers, and this text as its body.
    Substitute { status: u16, body: String },
}

/// The status of a response that is made up where the one that came cannot be
/// passed on: Bad Gateway.
pub const BAD_GATEWAY: u16 = 502;

/// The body after a rule for bodies: rewritten where the rule looks at it and
/// it was read, else as it is.
pub open spec fn body_after(action: TextModify, looks: bool, body: PayloadView) -> PayloadView {
    match body {
        PayloadView::Drained(bytes) if looks => PayloadView::Drained(body_rewritten(action, bytes)),
        _ => body,
    }
}

impl Modify {
    /// Whether the rule looks at the body that comes with these fields.
    pub open spec fn reads_body(&self, fields: Map<Seq<char>, Seq<Seq<u8>>>) -> bool {
        self is Body && announces_text(fields)
    }

    /// Whether the rule looks at the body that comes with these headers, so
    /// that it has to be read before the rule is applied.
    pub fn needs_body(&self, headers: &HeaderMap<HeaderValue>) -> (out: bool)
        ensures
            out == self.reads_body(header_fields(*headers)),
    {
        match self {
            Modify::Body(_) => is_text_content(headers),
            _ => false,
        }
    }

    /// Applies the rule to a request.
    ///
    /// A rule for headers rewrites or removes fields that are there. A rule for
    /// cookies reads the `Cookie` header, changes the cookies, and writes the
    /// one header anew. A rule for bodies rewrites a body that was read, where
    /// the headers announce text; a body that was not read goes on as it came.
    ///
    /// An entry that cannot be applied is left out and its position is
    /// reported. A rule for cookies is left out as a whole, with the positions
    /// of all its entries reported and the headers as they were, where the
    /// `Cookie` header cannot be read as text or the map does not take the new
    /// one.
    ///
    /// Nothing comes back in one case only, in which the request must not be
    /// sent: the rule looks at the body and reading it failed.
    pub fn modify_req(&self, req: Message) -> (out: Option<Rewritten>)
        ensures
            out is None <==> self.reads_body(header_fields(req.headers)) && req.body is Failed,
            match self {
                Modify::Header(mds) => {
                    &&& out matches Some(r)
                    &&& header_fields(r.message.headers) == fields_edited(
                        mds@,
                        header_fields(req.headers),
                    )
                    &&& mds@.len() == 0 ==> r.message.headers == req.headers
                    &&& r.message.body == req.body
                    &&& r.skipped@ == fields_skipped(mds@, header_fields(req.headers))
                },
                Modify::Cookies(mds) => {
                    &&& out matches Some(r)
                    &&& r.message.body == req.body
                    &&& request_cookies_fit(header_fields(req.headers)) ==> {
                        &&& header_fields(r.message.headers) == with_cookie_line(
                            header_fields(req.headers),
                            crumbs_edited(mds@, sent_cookies(header_fields(req.headers))),
                        )
                        &&& r.skipped@ == crumbs_skipped(
                            mds@,
                            sent_cookies(header_fields(req.headers)),
                        )
                    }
                    &&& !request_cookies_fit(header_fields(req.headers)) ==> {
                        &&& r.message.headers == req.headers
                        &&& r.skipped@ == every_position(mds@.len())
                    }
                },
                Modify::Body(action) => {
                    &&& out is None <==> self.reads_body(header_fields(req.headers))
                        && req.body is Failed
                    &&& out matches Some(r) ==> {
                        &&& r.message.headers == req.headers
                        &&& r.skipped@.len() == 0
                        &&& r.message.body@ == body_after(
                            *action,
                            self.reads_body(header_fields(req.headers)),
                            req.body@,
                        )
                    }
                },
            },
    {
        let mut req = req;
        match self {
            Modify::Header(mds) => {
                let skipped = self.modify_headers(&mut req.headers, mds);
                Some(Rewritten { message: req, skipped })
            },
            Modify::Cookies(mds) => {
                let skipped = match edit_request_cookies(&mut req.headers, mds) {
                    Some(skipped) => skipped,
                    None => all_positions(mds.len()),
                };
                Some(Rewritten { message: req, skipped })
            },
            Modify::Body(action) => {
                if !is_text_content(&req.headers) {
                    return Some(Rewritten { message: req, skipped: Vec::new() });
                }
                let body = match req.body {
                    Payload::Drained(bytes) => Payload::Drained(rewrite_body(action, bytes)),
                    Payload::Failed(_) => {
                        return None;
                    },
                    Payload::Streamed => Payload::Streamed,
                };
                Some(
                    Rewritten {
                        message: Message { headers: req.headers, body },
                        skipped: Vec::new(),
                    },
                )
            },
        }
    }

    /// Applies the rule to a response.
    ///
    /// A rule for headers and a rule for bodies do what they do to a request.
    /// A rule for cookies reads the `Cookie` header and the `Set-Cookie`
    /// headers, makes each change to both sets of cookies, and writes all
    /// these headers anew. It is left out as a whole, with the positions of
    /// all its entries reported and the headers as they were, where one of
    /// these headers cannot be read as text or the map does not take the new
    /// ones.
    ///
    /// A response with the status Bad Gateway is made up in the place of the
    /// one that came in one case only: the rule looks at the body and reading
    /// it failed. Its body is what the failure says of itself.
    pub fn modify_res(&self, res: Message) -> (out: Reply)
        ensures
            out matches Reply::Substitute { status, .. } ==> status == BAD_GATEWAY,
            out is Substitute <==> self.reads_body(header_fields(res.headers))
                && res.body is Failed,
            match self {
                Modify::Header(mds) => {
                    &&& out matches Reply::Forward(r)
                    &&& header_fields(r.message.headers) == fields_edited(
                        mds@,
                        header_fields(res.headers),
                    )
                    &&& mds@.len() == 0 ==> r.message.headers == res.headers
                    &&& r.message.body == res.body
                    &&& r.skipped@ == fields_skipped(mds@, header_fields(res.headers))
                },
                Modify::Cookies(mds) => {
                    let fields = header_fields(res.headers);
                    let after = pair_edited(mds@, sent_cookies(fields), set_cookies(fields));
                    &&& out matches Reply::Forward(r)
                    &&& r.message.body == res.body
                    &&& response_cookies_fit(fields, after.1) ==> {
                        &&& header_fields(r.message.headers) == with_set_cookie_lines(
                            with_cookie_line(fields, after.0),
                            after.1,
                        )
                        &&& r.skipped@ == pair_skipped(
                            mds@,
                            sent_cookies(fields),
                            set_cookies(fields),
                        )
                    }
                    &&& !response_cookies_fit(fields, after.1) ==> {
                        &&& r.message.headers == res.headers
                        &&& r.skipped@ == every_position(mds@.len())
                    }
                },
                Modify::Body(action) => {
                    &&& out is Substitute <==> self.reads_body(header_fields(res.headers))
                        && res.body is Failed
                    &&& out matches Reply::Substitute { body, .. } ==> res.body@
                        == PayloadView::Failed(body@)
                    &&& out matches Reply::Forward(r) ==> {
                        &&& r.message.headers == res.headers
                        &&& r.skipped@.len() == 0
                        &&& r.message.body@ == body_after(
                            *action,
                            self.reads_body(header_fields(res.headers)),
                            res.body@,
                        )
                    }
                },
            },
    {
        let mut res = res;
        match self {
            Modify::Header(mds) => {
                let skipped = self.modify_headers(&mut res.headers, mds);
                Reply::Forward(Rewritten { message: res, skipped })
            },
            Modify::Cookies(mds) => {
                let skipped = match edit_response_cookies(&mut res.headers, mds) {
                    Some(skipped) => skipped,
                    None => all_positions(mds.len()),
                };
                Reply::Forward(Rewritten { message: res, skipped })
            },
            Modify::Body(action) => {
                if !is_text_content(&res.headers) {
                    return Reply::Forward(Rewritten { message: res, skipped: Vec::new() });
                }
                let body = match res.body {
                    Payload::Drained(bytes) => Payload::Drained(rewrite_body(action, bytes)),
                    Payload::Failed(why) => {
                        return Reply::Substitute { status: BAD_GATEWAY, body: why };
                    },
                    Payload::Streamed => Payload::Streamed,
                };
                Reply::Forward(
                    Rewritten {
                        message: Message { headers: res.headers, body },
                        skipped: Vec::new(),
                    },
                )
            },
        }
    }
}

} // verus!

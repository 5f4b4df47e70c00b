//! Changes to cookies.
//!
//! The cookies that a client sends stand in one `Cookie` header, joined by
//! `"; "`. The cookies that a server sets stand in `Set-Cookie` headers, one
//! cookie each. A change to the cookies of a response is made to both.
//!
//! The headers are read into jars, the jars are changed, and the headers are
//! written anew from the jars. A piece of a header that is no cookie is left
//! out of its jar. An entry that asks for a cookie that no header can hold is
//! left out and its position is reported. Where one of the headers cannot be
//! read as text, or the header map does not take the new headers, the rule is
//! left out as a whole and the headers stay as they are: a header is written
//! in the place of one that is there, which a map cannot refuse, or it is put
//! into a map that has room.

use crate::headers::{
    all_values, append_field, can_be_read, can_be_written, field_name, field_value,
    field_values, first_value, has_field, has_room_for, header_fields, insert_field,
    is_field_text, is_readable, lemma_known_names, remove_field, room_for, set_first_value,
    text_of, value_text,
};
use crate::jar::{
    crumb_in, distinct, holds, lemma_with_crumb, lemma_without_crumb, place, plain_crumb,
    taken_cookie, texts_of, value_in, with_crumb, without_crumb, Crumb, OrderedJar,
};
use crate::rule::MapModify;
use crate::text::{chars_of, stands_at, string_of};
use http::header::{HeaderMap, HeaderValue};
use vstd::prelude::*;
use vstd::string::StringExecFns;
use vstd::utf8::encode_utf8;

verus! {

/// `parts` with `head` put in front of the first part.
pub open spec fn led_by(head: Seq<char>, parts: Seq<Seq<char>>) -> Seq<Seq<char>>
    recommends
        parts.len() > 0,
{
    seq![head + parts[0]] + parts.skip(1)
}

/// The parts into which the occurrences of `sep` cut `text`, read from the
/// left. There is always at least one part; a part may be empty. `sep` is not
/// empty.
pub open spec fn pieces(text: Seq<char>, sep: Seq<char>) -> Seq<Seq<char>>
    decreases text.len(),
{
    if sep.len() > 0 && sep.is_prefix_of(text) {
        seq![Seq::<char>::empty()] + pieces(text.skip(sep.len() as int), sep)
    } else if text.len() == 0 {
        seq![Seq::<char>::empty()]
    } else {
        led_by(seq![text[0]], pieces(text.skip(1), sep))
    }
}

/// The parts, with `sep` between each two of them.
pub open spec fn joined(parts: Seq<Seq<char>>, sep: Seq<char>) -> Seq<char>
    decreases parts.len(),
{
    if parts.len() == 0 {
        Seq::empty()
    } else if parts.len() == 1 {
        parts[0]
    } else {
        joined(parts.drop_last(), sep) + sep + parts.last()
    }
}

/// The texts that the strings hold.
pub open spec fn views(strings: Seq<String>) -> Seq<Seq<char>> {
    Seq::new(strings.len(), |i: int| strings[i]@)
}

/// Cutting a text yields at least one part.
pub proof fn lemma_pieces_not_empty(text: Seq<char>, sep: Seq<char>)
    ensures
        pieces(text, sep).len() > 0,
    decreases text.len(),
{
    if sep.len() > 0 && sep.is_prefix_of(text) {
    } else if text.len() == 0 {
    } else {
        lemma_pieces_not_empty(text.skip(1), sep);
    }
}

/// Cuts `text` at the occurrences of `sep`.
fn split_chars(text: &Vec<char>, sep: &Vec<char>) -> (out: Vec<String>)
    requires
        sep@.len() > 0,
    ensures
        views(out@) == pieces(text@, sep@),
{
    let mut out: Vec<String> = Vec::new();
    let mut part: Vec<char> = Vec::new();
    let mut i: usize = 0;
    proof {
        lemma_pieces_not_empty(text@, sep@);
        assert(text@.skip(0) =~= text@);
        assert(views(out@) + led_by(part@, pieces(text@, sep@)) =~= pieces(text@, sep@));
    }
    while i < text.len()
        invariant
            sep@.len() > 0,
            i <= text.len(),
            pieces(text@, sep@) == views(out@) + led_by(
                part@,
                pieces(text@.skip(i as int), sep@),
            ),
        decreases text.len() - i,
    {
        let ghost rest = text@.skip(i as int);
        let ghost done = views(out@);
        let ghost head = part@;
        if stands_at(text, i, sep) {
            proof {
                assert(rest.subrange(0, sep@.len() as int) =~= text@.subrange(
                    i as int,
                    i + sep@.len(),
                ));
                assert(sep@.is_prefix_of(rest));
                assert(rest.skip(sep@.len() as int) =~= text@.skip(i + sep@.len()));
                lemma_pieces_not_empty(text@.skip(i + sep@.len()), sep@);
            }
            out.push(string_of(&part));
            part = Vec::new();
            i += sep.len();
            proof {
                let next = pieces(text@.skip(i as int), sep@);
                assert(views(out@) =~= done.push(head));
                assert(led_by(head, pieces(rest, sep@)) =~= seq![head] + next);
                assert(led_by(part@, next) =~= next);
                assert(views(out@) + led_by(part@, next) =~= done + led_by(
                    head,
                    pieces(rest, sep@),
                ));
            }
        } else {
            proof {
                if sep@.is_prefix_of(rest) {
                    assert(rest.subrange(0, sep@.len() as int) =~= text@.subrange(
                        i as int,
                        i + sep@.len(),
                    ));
                }
                assert(rest.skip(1) =~= text@.skip(i + 1));
                lemma_pieces_not_empty(text@.skip(i + 1), sep@);
            }
            part.push(text[i]);
            i += 1;
            proof {
                let next = pieces(text@.skip(i as int), sep@);
                assert(part@ + next[0] =~= head + (seq![rest[0]] + next[0]));
                assert(led_by(part@, next) =~= led_by(head, pieces(rest, sep@)));
            }
        }
    }
    proof {
        assert(text@.skip(i as int) =~= Seq::<char>::empty());
        assert(led_by(part@, pieces(Seq::<char>::empty(), sep@)) =~= seq![part@]);
    }
    let ghost done = views(out@);
    out.push(string_of(&part));
    proof {
        assert(views(out@) =~= done + seq![part@]);
    }
    out
}

/// The pieces of a `Cookie` header: what stands between the `"; "`.
pub fn cookie_segments(text: &str) -> (out: Vec<String>)
    ensures
        views(out@) == pieces(text@, "; "@),
{
    proof {
        reveal_strlit("; ");
    }
    let text = chars_of(text);
    let sep = chars_of("; ");
    split_chars(&text, &sep)
}

/// Joins the parts, with `sep` between each two of them.
pub fn join_texts(parts: &Vec<String>, sep: &str) -> (out: String)
    ensures
        out@ == joined(views(parts@), sep@),
{
    let mut out = String::new();
    let mut i: usize = 0;
    while i < parts.len()
        invariant
            i <= parts.len(),
            out@ == joined(views(parts@).take(i as int), sep@),
        decreases parts.len() - i,
    {
        proof {
            assert(views(parts@).take(i + 1).drop_last() =~= views(parts@).take(i as int));
        }
        if i > 0 {
            out.append(sep);
        }
        out.append(parts[i].as_str());
        i += 1;
    }
    proof {
        assert(views(parts@).take(i as int) =~= views(parts@));
    }
    out
}

/// `crumbs` after each of `segments`, in their order, was parsed as a cookie
/// and put among them. A segment of which no cookie is taken is left out.
pub open spec fn with_segments(crumbs: Seq<Crumb>, segments: Seq<Seq<char>>) -> Seq<Crumb>
    decreases segments.len(),
{
    if segments.len() == 0 {
        crumbs
    } else {
        match taken_cookie(segments.last()) {
            Some(c) => with_crumb(with_segments(crumbs, segments.drop_last()), c),
            None => with_segments(crumbs, segments.drop_last()),
        }
    }
}

/// The cookies of the `Cookie` header: those of the pieces of its first
/// value. Without the header there are none, and a value that cannot be read
/// holds none.
pub open spec fn sent_cookies(fields: Map<Seq<char>, Seq<Seq<u8>>>) -> Seq<Crumb> {
    if has_field(fields, "cookie"@) {
        with_segments(
            Seq::empty(),
            pieces(text_of(field_values(fields, "cookie"@)[0]), "; "@),
        )
    } else {
        Seq::empty()
    }
}

/// The texts of header values; one that cannot be read counts as empty.
pub open spec fn texts_of_values(values: Seq<Seq<u8>>) -> Seq<Seq<char>> {
    Seq::new(values.len(), |i: int| text_of(values[i]))
}

/// The cookies of the `Set-Cookie` headers, one of each value that parses.
pub open spec fn set_cookies(fields: Map<Seq<char>, Seq<Seq<u8>>>) -> Seq<Crumb> {
    with_segments(Seq::empty(), texts_of_values(field_values(fields, "set-cookie"@)))
}

/// Puts the cookies that `segments` hold into the jar.
pub fn add_segments(jar: &mut OrderedJar, segments: &Vec<String>)
    requires
        old(jar).wf(),
    ensures
        final(jar).wf(),
        final(jar)@ == with_segments(old(jar)@, views(segments@)),
{
    let mut i: usize = 0;
    while i < segments.len()
        invariant
            i <= segments.len(),
            jar.wf(),
            jar@ == with_segments(old(jar)@, views(segments@).take(i as int)),
        decreases segments.len() - i,
    {
        proof {
            assert(views(segments@).take(i + 1).drop_last() =~= views(segments@).take(i as int));
        }
        jar.add_parsed(segments[i].as_str());
        i += 1;
    }
    proof {
        assert(views(segments@).take(i as int) =~= views(segments@));
    }
}

/// Reads the cookies of the `Cookie` header into a jar.
pub fn read_sent_cookies(headers: &HeaderMap<HeaderValue>) -> (jar: OrderedJar)
    ensures
        jar.wf(),
        jar@ == sent_cookies(header_fields(*headers)),
{
    let mut jar = OrderedJar::new();
    match first_value(headers, "cookie") {
        None => {},
        Some(value) => {
            let text = value_text(&value);
            let segments = cookie_segments(text.as_str());
            add_segments(&mut jar, &segments);
        },
    }
    jar
}

/// Reads the cookies of the `Set-Cookie` headers into a jar.
pub fn read_set_cookies(headers: &HeaderMap<HeaderValue>) -> (jar: OrderedJar)
    ensures
        jar.wf(),
        jar@ == set_cookies(header_fields(*headers)),
{
    let mut jar = OrderedJar::new();
    let values = all_values(headers, "set-cookie");
    let mut texts: Vec<String> = Vec::new();
    let mut i: usize = 0;
    while i < values.len()
        invariant
            i <= values.len(),
            texts@.len() == i,
            forall|j: int| 0 <= j < i ==> (#[trigger] texts@[j])@ == text_of(values@[j]@),
        decreases values.len() - i,
    {
        texts.push(value_text(&values[i]));
        i += 1;
    }
    proof {
        assert(views(texts@) =~= texts_of_values(
            field_values(header_fields(*headers), "set-cookie"@),
        ));
    }
    add_segments(&mut jar, &texts);
    jar
}

/// The value of a `Cookie` header that holds the cookies of the jar.
pub fn cookie_line(jar: &OrderedJar) -> (out: String)
    requires
        jar.wf(),
    ensures
        out@ == joined(texts_of(jar@), "; "@),
{
    let texts = jar.texts();
    proof {
        assert(views(texts@) =~= texts_of(jar@));
    }
    join_texts(&texts, "; ")
}

/// The text of an optional string.
pub open spec fn text_in(s: Option<String>) -> Option<Seq<char>> {
    match s {
        Some(s) => Some(s@),
        None => None,
    }
}

/// The value that a cookie counts as having: the one among `first`, else the
/// one among `second`.
pub open spec fn current_in(first: Seq<Crumb>, second: Seq<Crumb>, name: Seq<char>) -> Option<
    Seq<char>,
> {
    match value_in(first, name) {
        Some(v) => Some(v),
        None => value_in(second, name),
    }
}

impl MapModify {
    /// The value that the entry gives its cookie, whose value so far is
    /// `current`; a cookie that is missing counts as empty.
    pub open spec fn cookie_value(&self, current: Option<Seq<char>>) -> Seq<char>
        recommends
            self.value is Some,
    {
        self.value->0.applied(
            match current {
                Some(v) => v,
                None => Seq::empty(),
            },
        )
    }

    /// Whether the entry asks for a cookie to be set.
    pub open spec fn asks_cookie(&self) -> bool {
        !self.remove && self.value is Some
    }

    /// Whether the cookie that the entry asks for can stand in a header.
    pub open spec fn cookie_fits(&self, current: Option<Seq<char>>) -> bool {
        is_field_text(self.key@) && is_field_text(self.cookie_value(current))
    }

    /// Whether the entry is left out: it asks for a cookie that no header can
    /// hold.
    pub open spec fn cookie_skipped(&self, current: Option<Seq<char>>) -> bool {
        self.asks_cookie() && !self.cookie_fits(current)
    }

    /// The cookies after the entry was applied to `crumbs`.
    pub open spec fn cookie_edited(&self, crumbs: Seq<Crumb>, current: Option<Seq<char>>) -> Seq<
        Crumb,
    > {
        if self.remove {
            without_crumb(crumbs, self.key@)
        } else if self.asks_cookie() && self.cookie_fits(current) {
            with_crumb(crumbs, plain_crumb(self.key@, self.cookie_value(current)))
        } else {
            crumbs
        }
    }

    /// The value to set the entry's cookie to, where it sets one.
    pub fn new_cookie_value(&self, current: Option<String>) -> (out: Option<String>)
        ensures
            out is Some == (self.asks_cookie() && self.cookie_fits(text_in(current))),
            out matches Some(v) ==> v@ == self.cookie_value(text_in(current)),
    {
        if self.remove {
            return None;
        }
        match &self.value {
            None => None,
            Some(action) => {
                let new = match current {
                    Some(text) => action.exec_action(text.as_str()),
                    None => {
                        let empty = String::new();
                        action.exec_action(empty.as_str())
                    },
                };
                if can_be_written(self.key.as_str()) && can_be_written(new.as_str()) {
                    Some(new)
                } else {
                    None
                }
            },
        }
    }
}

/// The cookies of a request after the entries of `mds` were applied in their
/// order. Each entry sees the value that the entries before it left.
pub open spec fn crumbs_edited(mds: Seq<MapModify>, crumbs: Seq<Crumb>) -> Seq<Crumb>
    decreases mds.len(),
{
    if mds.len() == 0 {
        crumbs
    } else {
        let before = crumbs_edited(mds.drop_last(), crumbs);
        mds.last().cookie_edited(before, value_in(before, mds.last().key@))
    }
}

/// The positions of the entries of `mds` that are left out when they are
/// applied to the cookies of a request.
pub open spec fn crumbs_skipped(mds: Seq<MapModify>, crumbs: Seq<Crumb>) -> Seq<usize>
    decreases mds.len(),
{
    if mds.len() == 0 {
        Seq::empty()
    } else {
        let before = crumbs_edited(mds.drop_last(), crumbs);
        if mds.last().cookie_skipped(value_in(before, mds.last().key@)) {
            crumbs_skipped(mds.drop_last(), crumbs).push((mds.len() - 1) as usize)
        } else {
            crumbs_skipped(mds.drop_last(), crumbs)
        }
    }
}

/// The two sets of cookies of a response, those sent and those set, after the
/// entries of `mds` were applied to both in their order. Each entry sees the
/// value that the entries before it left among the cookies sent or, where it is
/// missing there, among the cookies set.
pub open spec fn pair_edited(mds: Seq<MapModify>, sent: Seq<Crumb>, set: Seq<Crumb>) -> (
    Seq<Crumb>,
    Seq<Crumb>,
)
    decreases mds.len(),
{
    if mds.len() == 0 {
        (sent, set)
    } else {
        let before = pair_edited(mds.drop_last(), sent, set);
        let current = current_in(before.0, before.1, mds.last().key@);
        (mds.last().cookie_edited(before.0, current), mds.last().cookie_edited(before.1, current))
    }
}

/// The positions of the entries of `mds` that are left out when they are
/// applied to the cookies of a response.
pub open spec fn pair_skipped(mds: Seq<MapModify>, sent: Seq<Crumb>, set: Seq<Crumb>) -> Seq<usize>
    decreases mds.len(),
{
    if mds.len() == 0 {
        Seq::empty()
    } else {
        let before = pair_edited(mds.drop_last(), sent, set);
        if mds.last().cookie_skipped(current_in(before.0, before.1, mds.last().key@)) {
            pair_skipped(mds.drop_last(), sent, set).push((mds.len() - 1) as usize)
        } else {
            pair_skipped(mds.drop_last(), sent, set)
        }
    }
}

/// One entry leaves the two sets of cookies of a response at one with each
/// other on its cookie: where it removes, neither holds the cookie any more,
/// and where it sets a cookie, both hold it with the new value and without
/// attributes. A cookie of another name stays as it is in both, with its
/// attributes.
pub proof fn lemma_pair_agrees(md: MapModify, sent: Seq<Crumb>, set: Seq<Crumb>)
    requires
        distinct(sent),
        distinct(set),
    ensures
        ({
            let current = current_in(sent, set, md.key@);
            let sent_after = md.cookie_edited(sent, current);
            let set_after = md.cookie_edited(set, current);
            &&& distinct(sent_after)
            &&& distinct(set_after)
            &&& md.remove ==> crumb_in(sent_after, md.key@) is None && crumb_in(
                set_after,
                md.key@,
            ) is None
            &&& md.asks_cookie() && md.cookie_fits(current) ==> crumb_in(sent_after, md.key@)
                == Some(plain_crumb(md.key@, md.cookie_value(current))) && crumb_in(
                set_after,
                md.key@,
            ) == Some(plain_crumb(md.key@, md.cookie_value(current)))
            &&& forall|name: Seq<char>|
                name != md.key@ ==> #[trigger] crumb_in(sent_after, name) == crumb_in(sent, name)
                    && crumb_in(set_after, name) == crumb_in(set, name)
        }),
{
    let current = current_in(sent, set, md.key@);
    if md.remove {
        lemma_without_crumb(sent, md.key@);
        lemma_without_crumb(set, md.key@);
    } else if md.asks_cookie() && md.cookie_fits(current) {
        let c = plain_crumb(md.key@, md.cookie_value(current));
        lemma_with_crumb(sent, c);
        lemma_with_crumb(set, c);
    }
}

/// Cookies that are parsed and put among others of which no two have the same
/// name still have each name once.
pub proof fn lemma_segments_distinct(crumbs: Seq<Crumb>, segments: Seq<Seq<char>>)
    requires
        distinct(crumbs),
    ensures
        distinct(with_segments(crumbs, segments)),
    decreases segments.len(),
{
    if segments.len() > 0 {
        lemma_segments_distinct(crumbs, segments.drop_last());
        if let Some(c) = taken_cookie(segments.last()) {
            lemma_with_crumb(with_segments(crumbs, segments.drop_last()), c);
        }
    }
}

/// Among the cookies read from headers no name stands twice.
pub proof fn lemma_cookies_read_distinct(fields: Map<Seq<char>, Seq<Seq<u8>>>)
    ensures
        distinct(sent_cookies(fields)),
        distinct(set_cookies(fields)),
{
    lemma_segments_distinct(
        Seq::empty(),
        pieces(text_of(field_values(fields, "cookie"@)[0]), "; "@),
    );
    lemma_segments_distinct(
        Seq::empty(),
        texts_of_values(field_values(fields, "set-cookie"@)),
    );
}

/// The cookies read from headers can all be written.
pub proof fn lemma_cookies_read_writable(fields: Map<Seq<char>, Seq<Seq<u8>>>)
    ensures
        all_writable(sent_cookies(fields)),
        all_writable(set_cookies(fields)),
{
    lemma_segments_writable(
        Seq::empty(),
        pieces(text_of(field_values(fields, "cookie"@)[0]), "; "@),
    );
    lemma_segments_writable(
        Seq::empty(),
        texts_of_values(field_values(fields, "set-cookie"@)),
    );
}

/// Whether no entry of `mds` names `name`.
pub open spec fn untouched(mds: Seq<MapModify>, name: Seq<char>) -> bool {
    forall|i: int| 0 <= i < mds.len() ==> (#[trigger] mds[i]).key@ != name
}

/// A cookie of a request that no entry names comes through the changes as it
/// is, and no name comes to stand twice.
pub proof fn lemma_untouched_cookie_stays(mds: Seq<MapModify>, crumbs: Seq<Crumb>, name: Seq<char>)
    requires
        distinct(crumbs),
        untouched(mds, name),
    ensures
        distinct(crumbs_edited(mds, crumbs)),
        crumb_in(crumbs_edited(mds, crumbs), name) == crumb_in(crumbs, name),
    decreases mds.len(),
{
    if mds.len() > 0 {
        let md = mds.last();
        assert(md == mds[mds.len() - 1]);
        assert forall|i: int| 0 <= i < mds.drop_last().len() implies (#[trigger] mds.drop_last()[
            i
        ]).key@ != name by {
            assert(mds.drop_last()[i] == mds[i]);
        }
        lemma_untouched_cookie_stays(mds.drop_last(), crumbs, name);
        let before = crumbs_edited(mds.drop_last(), crumbs);
        let current = value_in(before, md.key@);
        if md.remove {
            lemma_without_crumb(before, md.key@);
        } else if md.asks_cookie() && md.cookie_fits(current) {
            lemma_with_crumb(before, plain_crumb(md.key@, md.cookie_value(current)));
        }
    }
}

/// A cookie of a response that no entry names comes through the changes as it
/// is, among the cookies sent and among the cookies set, and no name comes to
/// stand twice in either.
pub proof fn lemma_untouched_pair_stays(
    mds: Seq<MapModify>,
    sent: Seq<Crumb>,
    set: Seq<Crumb>,
    name: Seq<char>,
)
    requires
        distinct(sent),
        distinct(set),
        untouched(mds, name),
    ensures
        distinct(pair_edited(mds, sent, set).0),
        distinct(pair_edited(mds, sent, set).1),
        crumb_in(pair_edited(mds, sent, set).0, name) == crumb_in(sent, name),
        crumb_in(pair_edited(mds, sent, set).1, name) == crumb_in(set, name),
    decreases mds.len(),
{
    if mds.len() > 0 {
        let md = mds.last();
        assert(md == mds[mds.len() - 1]);
        assert forall|i: int| 0 <= i < mds.drop_last().len() implies (#[trigger] mds.drop_last()[
            i
        ]).key@ != name by {
            assert(mds.drop_last()[i] == mds[i]);
        }
        lemma_untouched_pair_stays(mds.drop_last(), sent, set, name);
        let before = pair_edited(mds.drop_last(), sent, set);
        lemma_pair_agrees(md, before.0, before.1);
    }
}

/// Applies the entries of `mds` to the cookies of a request and returns the
/// positions of those that were left out.
pub fn edit_jar(mds: &Vec<MapModify>, jar: &mut OrderedJar) -> (skipped: Vec<usize>)
    requires
        old(jar).wf(),
    ensures
        final(jar).wf(),
        final(jar)@ == crumbs_edited(mds@, old(jar)@),
        skipped@ == crumbs_skipped(mds@, old(jar)@),
{
    let mut skipped: Vec<usize> = Vec::new();
    let mut i: usize = 0;
    while i < mds.len()
        invariant
            i <= mds.len(),
            jar.wf(),
            jar@ == crumbs_edited(mds@.take(i as int), old(jar)@),
            skipped@ == crumbs_skipped(mds@.take(i as int), old(jar)@),
        decreases mds.len() - i,
    {
        proof {
            assert(mds@.take(i + 1).drop_last() =~= mds@.take(i as int));
        }
        let md = &mds[i];
        if md.remove {
            jar.remove(md.key.as_str());
        } else {
            let current = jar.value(md.key.as_str());
            match md.new_cookie_value(current) {
                Some(new) => {
                    jar.put(md.key.as_str(), new.as_str());
                },
                None => {
                    if md.value.is_some() {
                        skipped.push(i);
                    }
                },
            }
        }
        i += 1;
    }
    proof {
        assert(mds@.take(i as int) =~= mds@);
    }
    skipped
}

/// Applies the entries of `mds` to the cookies of a response, those sent and
/// those set, and returns the positions of those that were left out.
pub fn edit_jars(
    mds: &Vec<MapModify>,
    sent: &mut OrderedJar,
    set: &mut OrderedJar,
) -> (skipped: Vec<usize>)
    requires
        old(sent).wf(),
        old(set).wf(),
    ensures
        final(sent).wf(),
        final(set).wf(),
        (final(sent)@, final(set)@) == pair_edited(mds@, old(sent)@, old(set)@),
        skipped@ == pair_skipped(mds@, old(sent)@, old(set)@),
{
    let mut skipped: Vec<usize> = Vec::new();
    let mut i: usize = 0;
    while i < mds.len()
        invariant
            i <= mds.len(),
            sent.wf(),
            set.wf(),
            (sent@, set@) == pair_edited(mds@.take(i as int), old(sent)@, old(set)@),
            skipped@ == pair_skipped(mds@.take(i as int), old(sent)@, old(set)@),
        decreases mds.len() - i,
    {
        proof {
            assert(mds@.take(i + 1).drop_last() =~= mds@.take(i as int));
        }
        let md = &mds[i];
        if md.remove {
            sent.remove(md.key.as_str());
            set.remove(md.key.as_str());
        } else {
            let current = match sent.value(md.key.as_str()) {
                Some(v) => Some(v),
                None => set.value(md.key.as_str()),
            };
            match md.new_cookie_value(current) {
                Some(new) => {
                    sent.put(md.key.as_str(), new.as_str());
                    set.put(md.key.as_str(), new.as_str());
                },
                None => {
                    if md.value.is_some() {
                        skipped.push(i);
                    }
                },
            }
        }
        i += 1;
    }
    proof {
        assert(mds@.take(i as int) =~= mds@);
    }
    skipped
}

/// The bytes of each of the texts.
pub open spec fn encoded(texts: Seq<Seq<char>>) -> Seq<Seq<u8>> {
    Seq::new(texts.len(), |i: int| encode_utf8(texts[i]))
}

/// The fields with one `Cookie` header that holds `crumbs`, joined by `"; "`.
pub open spec fn with_cookie_line(fields: Map<Seq<char>, Seq<Seq<u8>>>, crumbs: Seq<Crumb>) -> Map<
    Seq<char>,
    Seq<Seq<u8>>,
> {
    fields.insert("cookie"@, seq![encode_utf8(joined(texts_of(crumbs), "; "@))])
}

/// The fields with one `Set-Cookie` header for each of `crumbs`, in their
/// order, and no other.
pub open spec fn with_set_cookie_lines(
    fields: Map<Seq<char>, Seq<Seq<u8>>>,
    crumbs: Seq<Crumb>,
) -> Map<Seq<char>, Seq<Seq<u8>>> {
    if crumbs.len() == 0 {
        fields.remove("set-cookie"@)
    } else {
        fields.insert("set-cookie"@, encoded(texts_of(crumbs)))
    }
}

/// Whether two maps hold the same fields but for `Cookie` and `Set-Cookie`.
pub open spec fn same_but_cookies(
    a: Map<Seq<char>, Seq<Seq<u8>>>,
    b: Map<Seq<char>, Seq<Seq<u8>>>,
) -> bool {
    forall|k: Seq<char>|
        k != "cookie"@ && k != "set-cookie"@ ==> (#[trigger] a.contains_key(k)) == b.contains_key(
            k,
        ) && (a.contains_key(k) ==> a[k] == b[k])
}

/// Whether each of `crumbs` has a text that can be written as a value.
pub open spec fn all_writable(crumbs: Seq<Crumb>) -> bool {
    forall|i: int| 0 <= i < crumbs.len() ==> is_field_text(#[trigger] crumbs[i].text)
}

/// A cookie whose text can be written, put among such cookies, leaves only
/// such cookies.
pub proof fn lemma_with_crumb_writable(crumbs: Seq<Crumb>, c: Crumb)
    requires
        all_writable(crumbs),
        is_field_text(c.text),
    ensures
        all_writable(with_crumb(crumbs, c)),
{
    let after = with_crumb(crumbs, c);
    assert forall|i: int| 0 <= i < after.len() implies is_field_text(#[trigger] after[i].text) by {
        if holds(crumbs, c.name) {
            if i != place(crumbs, c.name) {
                assert(after[i] == crumbs[i]);
            }
        } else if i < crumbs.len() {
            assert(after[i] == crumbs[i]);
        }
    }
}

/// Taking a cookie away from cookies whose texts can be written leaves only
/// such cookies.
pub proof fn lemma_without_crumb_writable(crumbs: Seq<Crumb>, name: Seq<char>)
    requires
        all_writable(crumbs),
    ensures
        all_writable(without_crumb(crumbs, name)),
{
    let after = without_crumb(crumbs, name);
    assert forall|i: int| 0 <= i < after.len() implies is_field_text(#[trigger] after[i].text) by {
        if holds(crumbs, name) {
            if i < place(crumbs, name) {
                assert(after[i] == crumbs[i]);
            } else {
                assert(after[i] == crumbs[i + 1]);
            }
        }
    }
}

/// One entry leaves cookies whose texts can be written as such: the cookie
/// that it sets is made of a name and a value that can be written.
pub proof fn lemma_cookie_edited_writable(
    md: MapModify,
    crumbs: Seq<Crumb>,
    current: Option<Seq<char>>,
)
    requires
        all_writable(crumbs),
    ensures
        all_writable(md.cookie_edited(crumbs, current)),
{
    if md.remove {
        lemma_without_crumb_writable(crumbs, md.key@);
    } else if md.asks_cookie() && md.cookie_fits(current) {
        let c = plain_crumb(md.key@, md.cookie_value(current));
        assert forall|i: int| 0 <= i < c.text.len() implies crate::headers::value_char(
            #[trigger] c.text[i],
        ) by {
            if i < md.key@.len() {
                assert(c.text[i] == md.key@[i]);
            } else if i == md.key@.len() {
                assert(c.text[i] == '=');
            } else {
                assert(c.text[i] == md.cookie_value(current)[i - md.key@.len() - 1]);
            }
        }
        lemma_with_crumb_writable(crumbs, c);
    }
}

/// The cookies of a request can all be written after the changes if they could
/// before.
pub proof fn lemma_crumbs_edited_writable(mds: Seq<MapModify>, crumbs: Seq<Crumb>)
    requires
        all_writable(crumbs),
    ensures
        all_writable(crumbs_edited(mds, crumbs)),
    decreases mds.len(),
{
    if mds.len() > 0 {
        lemma_crumbs_edited_writable(mds.drop_last(), crumbs);
        let before = crumbs_edited(mds.drop_last(), crumbs);
        lemma_cookie_edited_writable(mds.last(), before, value_in(before, mds.last().key@));
    }
}

/// The cookies of a response, those sent and those set, can all be written
/// after the changes if they could before.
pub proof fn lemma_pair_edited_writable(mds: Seq<MapModify>, sent: Seq<Crumb>, set: Seq<Crumb>)
    requires
        all_writable(sent),
        all_writable(set),
    ensures
        all_writable(pair_edited(mds, sent, set).0),
        all_writable(pair_edited(mds, sent, set).1),
    decreases mds.len(),
{
    if mds.len() > 0 {
        lemma_pair_edited_writable(mds.drop_last(), sent, set);
        let before = pair_edited(mds.drop_last(), sent, set);
        let current = current_in(before.0, before.1, mds.last().key@);
        lemma_cookie_edited_writable(mds.last(), before.0, current);
        lemma_cookie_edited_writable(mds.last(), before.1, current);
    }
}

/// The cookies taken from pieces of text can all be written.
pub proof fn lemma_segments_writable(crumbs: Seq<Crumb>, segments: Seq<Seq<char>>)
    requires
        all_writable(crumbs),
    ensures
        all_writable(with_segments(crumbs, segments)),
    decreases segments.len(),
{
    if segments.len() > 0 {
        lemma_segments_writable(crumbs, segments.drop_last());
        if let Some(c) = taken_cookie(segments.last()) {
            lemma_with_crumb_writable(with_segments(crumbs, segments.drop_last()), c);
        }
    }
}

/// Texts that can be written, joined by one that can, give a text that can be
/// written.
pub proof fn lemma_joined_writable(parts: Seq<Seq<char>>, sep: Seq<char>)
    requires
        forall|i: int| 0 <= i < parts.len() ==> is_field_text(#[trigger] parts[i]),
        is_field_text(sep),
    ensures
        is_field_text(joined(parts, sep)),
    decreases parts.len(),
{
    if parts.len() > 1 {
        assert forall|i: int| 0 <= i < parts.drop_last().len() implies is_field_text(
            #[trigger] parts.drop_last()[i],
        ) by {
            assert(parts.drop_last()[i] == parts[i]);
        }
        lemma_joined_writable(parts.drop_last(), sep);
        let head = joined(parts.drop_last(), sep);
        let all = joined(parts, sep);
        assert(is_field_text(parts[parts.len() - 1]));
        assert forall|i: int| 0 <= i < all.len() implies crate::headers::value_char(
            #[trigger] all[i],
        ) by {
            if i < head.len() {
                assert(all[i] == head[i]);
            } else if i < head.len() + sep.len() {
                assert(all[i] == sep[i - head.len()]);
            } else {
                assert(all[i] == parts.last()[i - head.len() - sep.len()]);
            }
        }
    } else if parts.len() == 1 {
        assert(is_field_text(parts[0]));
    }
}

/// The `Cookie` header that holds cookies whose texts can be written can be
/// written.
pub proof fn lemma_cookie_line_writable(crumbs: Seq<Crumb>)
    requires
        all_writable(crumbs),
    ensures
        is_field_text(joined(texts_of(crumbs), "; "@)),
{
    reveal_strlit("; ");
    assert forall|i: int| 0 <= i < texts_of(crumbs).len() implies is_field_text(
        #[trigger] texts_of(crumbs)[i],
    ) by {
        assert(texts_of(crumbs)[i] == crumbs[i].text);
    }
    lemma_joined_writable(texts_of(crumbs), "; "@);
}

/// Whether the `Cookie` header can be read: it is missing, or its first value
/// is text.
pub open spec fn sent_readable(fields: Map<Seq<char>, Seq<Seq<u8>>>) -> bool {
    has_field(fields, "cookie"@) ==> is_readable(field_values(fields, "cookie"@)[0])
}

/// Whether every `Set-Cookie` header can be read.
pub open spec fn set_readable(fields: Map<Seq<char>, Seq<Seq<u8>>>) -> bool {
    forall|i: int|
        0 <= i < field_values(fields, "set-cookie"@).len() ==> is_readable(
            #[trigger] field_values(fields, "set-cookie"@)[i],
        )
}

/// Whether the `Cookie` header can be read.
pub fn sent_can_be_read(headers: &HeaderMap<HeaderValue>) -> (out: bool)
    ensures
        out == sent_readable(header_fields(*headers)),
{
    match first_value(headers, "cookie") {
        None => true,
        Some(value) => can_be_read(&value),
    }
}

/// Whether every `Set-Cookie` header can be read.
pub fn set_can_be_read(headers: &HeaderMap<HeaderValue>) -> (out: bool)
    ensures
        out == set_readable(header_fields(*headers)),
{
    let values = all_values(headers, "set-cookie");
    let ghost there = field_values(header_fields(*headers), "set-cookie"@);
    let mut i: usize = 0;
    while i < values.len()
        invariant
            i <= values.len(),
            there == field_values(header_fields(*headers), "set-cookie"@),
            values@.len() == there.len(),
            forall|j: int| 0 <= j < values@.len() ==> (#[trigger] values@[j])@ == there[j],
            forall|j: int| 0 <= j < i ==> is_readable(#[trigger] values@[j]@),
        decreases values.len() - i,
    {
        if !can_be_read(&values[i]) {
            assert(values@[i as int]@ == there[i as int]);
            assert(!is_readable(there[i as int]));
            return false;
        }
        i += 1;
    }
    assert forall|j: int|
        0 <= j < field_values(header_fields(*headers), "set-cookie"@).len() implies is_readable(
        #[trigger] field_values(header_fields(*headers), "set-cookie"@)[j],
    ) by {
        assert(values@[j]@ == field_values(header_fields(*headers), "set-cookie"@)[j]);
    }
    true
}

/// Whether the texts of all cookies of the jar can be written as values.
pub fn texts_can_be_written(texts: &Vec<String>) -> (out: bool)
    ensures
        out == forall|i: int| 0 <= i < texts@.len() ==> is_field_text((#[trigger] texts@[i])@),
{
    let mut i: usize = 0;
    while i < texts.len()
        invariant
            i <= texts.len(),
            forall|j: int| 0 <= j < i ==> is_field_text((#[trigger] texts@[j])@),
        decreases texts.len() - i,
    {
        if !can_be_written(texts[i].as_str()) {
            return false;
        }
        i += 1;
    }
    true
}

/// The positions of all entries of a list of `count`.
pub open spec fn every_position(count: nat) -> Seq<usize> {
    Seq::new(count, |i: int| i as usize)
}

/// The positions of all entries of a list of `count`.
pub fn all_positions(count: usize) -> (out: Vec<usize>)
    ensures
        out@ == every_position(count as nat),
{
    let mut out: Vec<usize> = Vec::new();
    let mut i: usize = 0;
    while i < count
        invariant
            i <= count,
            out@ == every_position(i as nat),
        decreases count - i,
    {
        out.push(i);
        assert(out@ =~= every_position((i + 1) as nat));
        i += 1;
    }
    out
}

/// Whether the `Cookie` header for `crumbs` can be written into these fields:
/// its line can be written as a value, and the map takes it. It does where
/// one `Cookie` header is there, whose value gives way to the line, and where
/// it has room.
pub open spec fn cookie_line_fits(
    fields: Map<Seq<char>, Seq<Seq<u8>>>,
    crumbs: Seq<Crumb>,
) -> bool {
    is_field_text(joined(texts_of(crumbs), "; "@)) && (field_values(fields, "cookie"@).len() == 1
        || room_for(fields, 0))
}

/// Whether the `Set-Cookie` headers for `crumbs` can be written into these
/// fields: each text can be written as a value, and the map takes them. It
/// does where there is none to write, where there is one and one `Set-Cookie`
/// header is there, whose value gives way to it, and where the map has room
/// for one more name.
pub open spec fn set_cookie_lines_fit(
    fields: Map<Seq<char>, Seq<Seq<u8>>>,
    crumbs: Seq<Crumb>,
) -> bool {
    all_writable(crumbs) && (crumbs.len() == 0 || (crumbs.len() == 1 && field_values(
        fields,
        "set-cookie"@,
    ).len() == 1) || room_for(fields, 1))
}

/// What a change to cookies comes to once the headers were written or not:
/// the positions of the entries that were left out where they were written,
/// and nothing where they were not.
pub fn settled(stored: bool, skipped: Vec<usize>) -> (out: Option<Vec<usize>>)
    ensures
        out == if stored {
            Some(skipped)
        } else {
            None::<Vec<usize>>
        },
{
    if stored {
        Some(skipped)
    } else {
        None
    }
}

/// Writes the cookies of the jar into the one `Cookie` header and says whether
/// that was done.
///
/// Where one `Cookie` header is there, the line takes the place of its value.
/// Where none is there, or several, the header is put into the map anew if the
/// map has room. Where nothing was written, the map is as it was.
pub fn store_cookie_line(headers: &mut HeaderMap<HeaderValue>, jar: &OrderedJar) -> (done: bool)
    requires
        jar.wf(),
    ensures
        done == cookie_line_fits(header_fields(*old(headers)), jar@),
        done ==> header_fields(*final(headers)) == with_cookie_line(
            header_fields(*old(headers)),
            jar@,
        ),
        !done ==> *final(headers) == *old(headers),
{
    proof {
        lemma_known_names();
    }
    let line = cookie_line(jar);
    match field_value(line.as_str()) {
        None => false,
        Some(value) => {
            let there = all_values(headers, "cookie");
            if there.len() == 1 {
                let ghost before = header_fields(*headers);
                let done = set_first_value(headers, "cookie", value);
                proof {
                    assert(before["cookie"@].update(0, encode_utf8(line@)) =~= seq![
                        encode_utf8(line@),
                    ]);
                }
                done
            } else if has_room_for(headers, 0) {
                match field_name("cookie") {
                    Some(name) => insert_field(headers, name, value),
                    None => false,
                }
            } else {
                false
            }
        },
    }
}

/// Writes one `Set-Cookie` header for each cookie of the jar, in their order,
/// in the place of those that are there, and says whether that was done.
///
/// With no cookie in the jar the headers are taken away. Where one header is
/// there and one is to be written, its text takes the place of the value.
/// Otherwise the headers that are there are taken away and the new ones are
/// added one by one, if the map has room for them. Where a text cannot be
/// written as a value or the map has no room, nothing is written and the map
/// is as it was. No other field but `Set-Cookie` is touched.
pub fn store_set_cookie_lines(
    headers: &mut HeaderMap<HeaderValue>,
    jar: &OrderedJar,
) -> (done: bool)
    requires
        jar.wf(),
    ensures
        done == set_cookie_lines_fit(header_fields(*old(headers)), jar@),
        done ==> header_fields(*final(headers)) == with_set_cookie_lines(
            header_fields(*old(headers)),
            jar@,
        ),
        !done ==> *final(headers) == *old(headers),
{
    proof {
        lemma_known_names();
    }
    let ghost start = header_fields(*headers);
    let texts = jar.texts();
    let ghost lines = encoded(texts_of(jar@));
    if !texts_can_be_written(&texts) {
        proof {
            if all_writable(jar@) {
                assert forall|i: int| 0 <= i < texts@.len() implies is_field_text(
                    (#[trigger] texts@[i])@,
                ) by {
                    assert(texts@[i]@ == jar@[i].text);
                }
            }
        }
        return false;
    }
    proof {
        assert forall|i: int| 0 <= i < jar@.len() implies is_field_text(
            #[trigger] jar@[i].text,
        ) by {
            assert(texts@[i]@ == jar@[i].text);
        }
    }
    if texts.len() == 0 {
        remove_field(headers, "set-cookie");
        assert(header_fields(*headers) =~= start.remove("set-cookie"@));
        return true;
    }
    let there = all_values(headers, "set-cookie");
    if there.len() == 1 && texts.len() == 1 {
        return match field_value(texts[0].as_str()) {
            None => false,
            Some(value) => {
                let done = set_first_value(headers, "set-cookie", value);
                proof {
                    assert(start["set-cookie"@].update(0, encode_utf8(texts@[0]@)) =~= lines);
                }
                done
            },
        };
    }
    if !has_room_for(headers, 1) {
        return false;
    }
    remove_field(headers, "set-cookie");
    assert(header_fields(*headers) =~= start.remove("set-cookie"@));
    let mut i: usize = 0;
    while i < texts.len()
        invariant
            i <= texts.len(),
            texts@.len() == jar@.len(),
            forall|j: int| 0 <= j < texts@.len() ==> (#[trigger] texts@[j])@ == jar@[j].text,
            all_writable(jar@),
            lines == encoded(texts_of(jar@)),
            start == header_fields(*old(headers)),
            room_for(start, 1),
            i == 0 ==> header_fields(*headers) == start.remove("set-cookie"@),
            i > 0 ==> header_fields(*headers) == start.insert("set-cookie"@, lines.take(i as int)),
        decreases texts.len() - i,
    {
        proof {
            lemma_known_names();
            assert(is_field_text(jar@[i as int].text));
            if i == 0 {
                assert(start.remove("set-cookie"@).dom() =~= start.dom().remove("set-cookie"@));
            } else {
                assert(start.insert("set-cookie"@, lines.take(i as int)).dom()
                    =~= start.dom().insert("set-cookie"@));
            }
            assert(room_for(header_fields(*headers), 0));
        }
        let done = match (field_name("set-cookie"), field_value(texts[i].as_str())) {
            (Some(name), Some(value)) => append_field(headers, name, value),
            _ => false,
        };
        assert(done);
        proof {
            assert(lines[i as int] == encode_utf8(texts@[i as int]@));
            assert(seq![lines[0]] =~= lines.take(1));
            assert(lines.take(i as int).push(lines[i as int]) =~= lines.take(i + 1));
            assert(header_fields(*headers) =~= start.insert("set-cookie"@, lines.take(i + 1)));
        }
        i += 1;
    }
    proof {
        assert(lines.take(i as int) =~= lines);
    }
    true
}

/// Whether a rule for cookies can be applied to a request with these fields:
/// the `Cookie` header can be read, and the map takes the new one. It does
/// where one `Cookie` header is there, whose value gives way to the new line,
/// and where it has room.
pub open spec fn request_cookies_fit(fields: Map<Seq<char>, Seq<Seq<u8>>>) -> bool {
    sent_readable(fields) && (field_values(fields, "cookie"@).len() == 1 || room_for(fields, 0))
}

/// Whether a rule for cookies can be applied to a response with these fields,
/// after which `set` are the cookies that it sets: the `Cookie` header and the
/// `Set-Cookie` headers can be read, and the map takes the new ones. It does
/// where it has room for two more names, and where each new header takes the
/// place of one that is there: one `Cookie` header is there, and for the
/// cookies set either there is none or there is one and one `Set-Cookie`
/// header is there.
pub open spec fn response_cookies_fit(
    fields: Map<Seq<char>, Seq<Seq<u8>>>,
    set: Seq<Crumb>,
) -> bool {
    sent_readable(fields) && set_readable(fields) && (room_for(fields, 2) || (field_values(
        fields,
        "cookie"@,
    ).len() == 1 && (set.len() == 0 || (set.len() == 1 && field_values(
        fields,
        "set-cookie"@,
    ).len() == 1))))
}

/// Applies the entries of `mds` to the cookies of a request: reads the
/// `Cookie` header, changes the cookies, and writes the header anew.
///
/// Returns the positions of the entries that were left out. Where the rule
/// cannot be applied, because the header cannot be read or the map does not
/// take the new one, nothing comes back and the map is as it was.
pub fn edit_request_cookies(
    headers: &mut HeaderMap<HeaderValue>,
    mds: &Vec<MapModify>,
) -> (out: Option<Vec<usize>>)
    ensures
        out is Some == request_cookies_fit(header_fields(*old(headers))),
        out matches Some(skipped) ==> {
            &&& header_fields(*final(headers)) == with_cookie_line(
                header_fields(*old(headers)),
                crumbs_edited(mds@, sent_cookies(header_fields(*old(headers)))),
            )
            &&& skipped@ == crumbs_skipped(mds@, sent_cookies(header_fields(*old(headers))))
        },
        out is None ==> *final(headers) == *old(headers),
{
    if !sent_can_be_read(headers) {
        return settled(false, Vec::new());
    }
    let mut jar = read_sent_cookies(headers);
    let skipped = edit_jar(mds, &mut jar);
    proof {
        let fields = header_fields(*headers);
        lemma_cookies_read_writable(fields);
        lemma_crumbs_edited_writable(mds@, sent_cookies(fields));
        lemma_cookie_line_writable(jar@);
    }
    let stored = store_cookie_line(headers, &jar);
    settled(stored, skipped)
}

/// Applies the entries of `mds` to the cookies of a response: reads the
/// `Cookie` header and the `Set-Cookie` headers, changes both sets of cookies,
/// and writes all these headers anew.
///
/// Returns the positions of the entries that were left out. Where the rule
/// cannot be applied, because a header cannot be read or the map does not
/// take the new ones, nothing comes back and the map is as it was. The fields
/// other than `Cookie` and `Set-Cookie` are as they were in any case.
pub fn edit_response_cookies(
    headers: &mut HeaderMap<HeaderValue>,
    mds: &Vec<MapModify>,
) -> (out: Option<Vec<usize>>)
    ensures
        out is Some == response_cookies_fit(
            header_fields(*old(headers)),
            pair_edited(
                mds@,
                sent_cookies(header_fields(*old(headers))),
                set_cookies(header_fields(*old(headers))),
            ).1,
        ),
        out matches Some(skipped) ==> {
            let fields = header_fields(*old(headers));
            let after = pair_edited(mds@, sent_cookies(fields), set_cookies(fields));
            &&& header_fields(*final(headers)) == with_set_cookie_lines(
                with_cookie_line(fields, after.0),
                after.1,
            )
            &&& skipped@ == pair_skipped(mds@, sent_cookies(fields), set_cookies(fields))
        },
        out is None ==> *final(headers) == *old(headers),
        same_but_cookies(header_fields(*final(headers)), header_fields(*old(headers))),
{
    proof {
        lemma_known_names();
        reveal_strlit("cookie");
        reveal_strlit("set-cookie");
    }
    let ghost fields = header_fields(*headers);
    if !sent_can_be_read(headers) || !set_can_be_read(headers) {
        return settled(false, Vec::new());
    }
    let mut sent = read_sent_cookies(headers);
    let mut set = read_set_cookies(headers);
    let skipped = edit_jars(mds, &mut sent, &mut set);
    proof {
        let after = pair_edited(mds@, sent_cookies(fields), set_cookies(fields));
        assert(sent@ == after.0 && set@ == after.1);
        lemma_cookies_read_writable(fields);
        lemma_pair_edited_writable(mds@, sent_cookies(fields), set_cookies(fields));
        lemma_cookie_line_writable(sent@);
    }
    let one_sent = all_values(headers, "cookie").len() == 1;
    let one_set = all_values(headers, "set-cookie").len() == 1;
    let count = set.texts().len();
    let in_place = one_sent && (count == 0 || (count == 1 && one_set));
    if !has_room_for(headers, 2) && !in_place {
        return settled(false, skipped);
    }
    let stored = store_cookie_line(headers, &sent);
    assert(stored);
    proof {
        let written = header_fields(*headers);
        assert(field_values(written, "set-cookie"@) == field_values(fields, "set-cookie"@));
        assert(written.dom() =~= fields.dom().insert("cookie"@));
    }
    let stored = store_set_cookie_lines(headers, &set);
    assert(stored);
    settled(stored, skipped)
}

} // verus!

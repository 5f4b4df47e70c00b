//! A cookie jar that remembers the order in which its cookies came.
//!
//! The cookies themselves live in a `cookie::CookieJar`, which keeps one cookie
//! for each name and hands them out in no fixed order. The names are kept
//! beside it in the order of their first arrival.

use crate::headers::{can_be_written, is_field_text};
use cookie::{Cookie, CookieJar};
use vstd::prelude::*;

verus! {

/// `cookie::CookieJar`, which holds one cookie for each name.
#[verifier::external_type_specification]
#[verifier::external_body]
pub struct ExCookieJar(CookieJar);

/// `cookie::Cookie`, a cookie with its attributes.
#[verifier::external_type_specification]
#[verifier::external_body]
pub struct ExCookie<'c>(Cookie<'c>);

/// What is read of a cookie: its name, its value, and the text that stands for
/// it in a header, which holds its attributes too.
pub struct Crumb {
    pub name: Seq<char>,
    pub value: Seq<char>,
    pub text: Seq<char>,
}

/// What is read of a cookie: what `Cookie::name` and `Cookie::value` give, and
/// the text that its `to_string` gives.
pub uninterp spec fn cookie_crumb(cookie: Cookie<'static>) -> Crumb;

/// The cookies that a `CookieJar` hands out, each under its name.
pub uninterp spec fn jar_cookies(jar: CookieJar) -> Map<Seq<char>, Crumb>;

/// What `Cookie::parse` makes of a piece of header text: nothing where it
/// refuses the text, else the cookie's name, its value and the text that the
/// cookie is formatted to.
pub uninterp spec fn parsed_cookie(segment: Seq<char>) -> Option<Crumb>;

/// The cookie that is taken from a piece of header text: the one that
/// `Cookie::parse` makes of it, if the text that stands for that cookie can be
/// written as the value of a header. Of other text no cookie is taken.
pub open spec fn taken_cookie(segment: Seq<char>) -> Option<Crumb> {
    match parsed_cookie(segment) {
        Some(c) => if is_field_text(c.text) {
            Some(c)
        } else {
            None
        },
        None => None,
    }
}

/// A cookie of a name and a value alone, as `Cookie::new` makes it. It is
/// formatted to the name, `=`, and the value.
pub open spec fn plain_crumb(name: Seq<char>, value: Seq<char>) -> Crumb {
    Crumb { name, value, text: name + seq!['='] + value }
}

/// The cookies of an empty jar.
pub open spec fn no_cookies() -> Map<Seq<char>, Crumb> {
    Map::empty()
}

/// `CookieJar::new` makes a jar without cookies.
#[verifier::external_body]
pub(crate) fn new_jar() -> (out: CookieJar)
    ensures
        jar_cookies(out) == no_cookies(),
{
    CookieJar::new()
}

/// Calls `Cookie::parse`, which makes a cookie of a piece of header text or
/// refuses the text.
#[verifier::external_body]
pub(crate) fn parse_cookie(segment: &str) -> (out: Option<Cookie<'static>>)
    ensures
        out is Some == parsed_cookie(segment@) is Some,
        out matches Some(c) ==> parsed_cookie(segment@) == Some(cookie_crumb(c)),
{
    Cookie::parse(segment.to_string()).ok()
}

/// Calls `Cookie::new`, which makes a cookie of a name and a value alone.
#[verifier::external_body]
pub(crate) fn new_cookie(name: &str, value: &str) -> (out: Cookie<'static>)
    ensures
        cookie_crumb(out) == plain_crumb(name@, value@),
{
    Cookie::new(name.to_string(), value.to_string())
}

/// Calls `Cookie::name`.
#[verifier::external_body]
pub(crate) fn cookie_name(cookie: &Cookie<'static>) -> (out: String)
    ensures
        out@ == cookie_crumb(*cookie).name,
{
    cookie.name().to_string()
}

/// Calls `Cookie::value`.
#[verifier::external_body]
pub(crate) fn cookie_value(cookie: &Cookie<'static>) -> (out: String)
    ensures
        out@ == cookie_crumb(*cookie).value,
{
    cookie.value().to_string()
}

/// Formats the cookie with its `to_string`, as it stands in a header.
#[verifier::external_body]
pub(crate) fn cookie_text(cookie: &Cookie<'static>) -> (out: String)
    ensures
        out@ == cookie_crumb(*cookie).text,
{
    cookie.to_string()
}

/// Calls `CookieJar::add`, which puts the cookie into the jar, in the place of
/// a cookie of the same name where there is one.
#[verifier::external_body]
pub(crate) fn add_cookie(jar: &mut CookieJar, cookie: Cookie<'static>)
    ensures
        jar_cookies(*final(jar)) == jar_cookies(*old(jar)).insert(
            cookie_crumb(cookie).name,
            cookie_crumb(cookie),
        ),
{
    jar.add(cookie);
}

/// Calls `CookieJar::remove`, after which the jar hands out no cookie of that
/// name.
#[verifier::external_body]
pub(crate) fn remove_cookie(jar: &mut CookieJar, name: &str)
    ensures
        jar_cookies(*final(jar)) == jar_cookies(*old(jar)).remove(name@),
{
    jar.remove(Cookie::named(name.to_string()));
}

/// Calls `CookieJar::get` and copies the cookie that it finds under the
/// name.
#[verifier::external_body]
pub(crate) fn find_cookie(jar: &CookieJar, name: &str) -> (out: Option<Cookie<'static>>)
    ensures
        out is Some == jar_cookies(*jar).contains_key(name@),
        out matches Some(c) ==> cookie_crumb(c) == jar_cookies(*jar)[name@],
{
    jar.get(name).cloned()
}

/// Whether a cookie of that name is among `crumbs`.
pub open spec fn holds(crumbs: Seq<Crumb>, name: Seq<char>) -> bool {
    exists|i: int| 0 <= i < crumbs.len() && #[trigger] crumbs[i].name == name
}

/// The place of the cookie of that name among `crumbs`.
pub open spec fn place(crumbs: Seq<Crumb>, name: Seq<char>) -> int
    recommends
        holds(crumbs, name),
{
    choose|i: int| 0 <= i < crumbs.len() && #[trigger] crumbs[i].name == name
}

/// Whether no two of `crumbs` have the same name.
pub open spec fn distinct(crumbs: Seq<Crumb>) -> bool {
    forall|i: int, j: int|
        0 <= i < j < crumbs.len() ==> #[trigger] crumbs[i].name != #[trigger] crumbs[j].name
}

/// `crumbs` with `c` in the place of the cookie of its name, or behind the
/// others where there is none.
pub open spec fn with_crumb(crumbs: Seq<Crumb>, c: Crumb) -> Seq<Crumb> {
    if holds(crumbs, c.name) {
        crumbs.update(place(crumbs, c.name), c)
    } else {
        crumbs.push(c)
    }
}

/// `crumbs` without the cookie of that name.
pub open spec fn without_crumb(crumbs: Seq<Crumb>, name: Seq<char>) -> Seq<Crumb> {
    if holds(crumbs, name) {
        crumbs.remove(place(crumbs, name))
    } else {
        crumbs
    }
}

/// The cookie of that name among `crumbs`.
pub open spec fn crumb_in(crumbs: Seq<Crumb>, name: Seq<char>) -> Option<Crumb> {
    if holds(crumbs, name) {
        Some(crumbs[place(crumbs, name)])
    } else {
        None
    }
}

/// The value of the cookie of that name among `crumbs`.
pub open spec fn value_in(crumbs: Seq<Crumb>, name: Seq<char>) -> Option<Seq<char>> {
    match crumb_in(crumbs, name) {
        Some(c) => Some(c.value),
        None => None,
    }
}

/// The texts of `crumbs`, in their order.
pub open spec fn texts_of(crumbs: Seq<Crumb>) -> Seq<Seq<char>> {
    Seq::new(crumbs.len(), |i: int| crumbs[i].text)
}

/// Among cookies of which no two have the same name, each stands at the place
/// of its name.
pub proof fn lemma_place_of(crumbs: Seq<Crumb>, i: int)
    requires
        distinct(crumbs),
        0 <= i < crumbs.len(),
    ensures
        holds(crumbs, crumbs[i].name),
        place(crumbs, crumbs[i].name) == i,
{
    let name = crumbs[i].name;
    let j = place(crumbs, name);
    if j < i {
        assert(crumbs[j].name != crumbs[i].name);
    } else if i < j {
        assert(crumbs[i].name != crumbs[j].name);
    }
}

/// A cookie that is put among others is then the cookie of its name, whether
/// or not one of that name was there, and the cookies of other names are left
/// as they are. No name comes to stand twice.
pub proof fn lemma_with_crumb(crumbs: Seq<Crumb>, c: Crumb)
    requires
        distinct(crumbs),
    ensures
        distinct(with_crumb(crumbs, c)),
        crumb_in(with_crumb(crumbs, c), c.name) == Some(c),
        forall|name: Seq<char>|
            name != c.name ==> #[trigger] crumb_in(with_crumb(crumbs, c), name) == crumb_in(
                crumbs,
                name,
            ),
{
    let after = with_crumb(crumbs, c);
    let at: int = if holds(crumbs, c.name) {
        place(crumbs, c.name)
    } else {
        crumbs.len() as int
    };
    assert(after[at] == c);
    assert(after.len() == if holds(crumbs, c.name) {
        crumbs.len()
    } else {
        crumbs.len() + 1
    });
    assert forall|i: int| 0 <= i < after.len() && i != at implies 0 <= i < crumbs.len()
        && #[trigger] after[i] == crumbs[i] && crumbs[i].name != c.name by {
        if crumbs[i].name == c.name {
            lemma_place_of(crumbs, i);
        }
    }
    assert forall|i: int, j: int| 0 <= i < j < after.len() implies #[trigger] after[i].name
        != #[trigger] after[j].name by {
        if i != at && j != at {
            assert(crumbs[i].name != crumbs[j].name);
        }
    }
    lemma_place_of(after, at);
    assert forall|name: Seq<char>| name != c.name implies #[trigger] crumb_in(after, name)
        == crumb_in(crumbs, name) by {
        if holds(crumbs, name) {
            let i = place(crumbs, name);
            assert(after[i] == crumbs[i]);
            lemma_place_of(after, i);
        } else if holds(after, name) {
            let i = place(after, name);
            assert(crumbs[i].name == name);
        }
    }
}

/// Taking the cookie of a name away leaves none of that name, and leaves the
/// cookies of other names as they are.
pub proof fn lemma_without_crumb(crumbs: Seq<Crumb>, name: Seq<char>)
    requires
        distinct(crumbs),
    ensures
        distinct(without_crumb(crumbs, name)),
        crumb_in(without_crumb(crumbs, name), name) is None,
        forall|other: Seq<char>|
            other != name ==> #[trigger] crumb_in(without_crumb(crumbs, name), other) == crumb_in(
                crumbs,
                other,
            ),
{
    let after = without_crumb(crumbs, name);
    if holds(crumbs, name) {
        let at = place(crumbs, name);
        assert forall|i: int| 0 <= i < after.len() implies #[trigger] after[i] == crumbs[if i
            < at {
            i
        } else {
            i + 1
        }] && after[i].name != name by {
            let k = if i < at {
                i
            } else {
                i + 1
            };
            if crumbs[k].name == name {
                lemma_place_of(crumbs, k);
            }
        }
        assert forall|i: int, j: int| 0 <= i < j < after.len() implies #[trigger] after[i].name
            != #[trigger] after[j].name by {
            let ki = if i < at {
                i
            } else {
                i + 1
            };
            let kj = if j < at {
                j
            } else {
                j + 1
            };
            assert(crumbs[ki].name != crumbs[kj].name);
        }
        if holds(after, name) {
            let i = place(after, name);
            assert(after[i].name != name);
        }
        assert forall|other: Seq<char>| other != name implies #[trigger] crumb_in(after, other)
            == crumb_in(crumbs, other) by {
            if holds(crumbs, other) {
                let k = place(crumbs, other);
                let i = if k < at {
                    k
                } else {
                    k - 1
                };
                assert(after[i] == crumbs[k]);
                lemma_place_of(after, i);
            } else if holds(after, other) {
                let i = place(after, other);
                let k = if i < at {
                    i
                } else {
                    i + 1
                };
                assert(crumbs[k].name == other);
            }
        }
    }
}

/// The place of `name` among `names`.
fn find_name(names: &Vec<String>, name: &String) -> (out: Option<usize>)
    ensures
        out matches Some(i) ==> i < names@.len() && names@[i as int]@ == name@,
        out is None ==> forall|i: int| 0 <= i < names@.len() ==> (#[trigger] names@[i])@ != name@,
{
    let mut i: usize = 0;
    while i < names.len()
        invariant
            i <= names@.len(),
            forall|j: int| 0 <= j < i ==> (#[trigger] names@[j])@ != name@,
        decreases names@.len() - i,
    {
        if names[i] == *name {
            return Some(i);
        }
        i += 1;
    }
    None
}

/// A cookie jar with its cookies in the order in which their names first came.
pub struct OrderedJar {
    names: Vec<String>,
    jar: CookieJar,
}

impl OrderedJar {
    /// The names are those of the cookies in the jar, each once.
    pub closed spec fn wf(&self) -> bool {
        &&& forall|i: int, j: int|
            0 <= i < j < self.names@.len() ==> (#[trigger] self.names@[i])@
                != (#[trigger] self.names@[j])@
        &&& forall|i: int|
            0 <= i < self.names@.len() ==> {
                &&& jar_cookies(self.jar).contains_key((#[trigger] self.names@[i])@)
                &&& jar_cookies(self.jar)[self.names@[i]@].name == self.names@[i]@
            }
        &&& forall|k: Seq<char>| #[trigger]
            jar_cookies(self.jar).contains_key(k) ==> exists|i: int|
                0 <= i < self.names@.len() && (#[trigger] self.names@[i])@ == k
    }

    /// The cookies, in their order.
    pub closed spec fn view(&self) -> Seq<Crumb> {
        Seq::new(self.names@.len(), |i: int| jar_cookies(self.jar)[self.names@[i]@])
    }

    /// No two cookies of a jar have the same name.
    pub proof fn lemma_distinct(&self)
        requires
            self.wf(),
        ensures
            distinct(self@),
    {
    }

    proof fn lemma_place(&self, i: int)
        requires
            self.wf(),
            0 <= i < self.names@.len(),
        ensures
            holds(self@, self.names@[i]@),
            place(self@, self.names@[i]@) == i,
    {
        assert(self@[i].name == self.names@[i]@);
    }

    proof fn lemma_absent(&self, name: Seq<char>)
        requires
            self.wf(),
            forall|i: int| 0 <= i < self.names@.len() ==> (#[trigger] self.names@[i])@ != name,
        ensures
            !holds(self@, name),
            !jar_cookies(self.jar).contains_key(name),
    {
        if holds(self@, name) {
            let i = place(self@, name);
            assert(self@[i].name == self.names@[i]@);
        }
    }

    /// A name is that of a cookie of the jar just where the cookies under the
    /// names hold one of that name, and that cookie is the one at its place.
    proof fn lemma_lookup(&self, name: Seq<char>)
        requires
            self.wf(),
        ensures
            holds(self@, name) == jar_cookies(self.jar).contains_key(name),
            holds(self@, name) ==> self@[place(self@, name)] == jar_cookies(self.jar)[name],
    {
        if jar_cookies(self.jar).contains_key(name) {
            let i = choose|i: int|
                0 <= i < self.names@.len() && (#[trigger] self.names@[i])@ == name;
            self.lemma_place(i);
            assert(self@[i] == jar_cookies(self.jar)[name]);
        } else if holds(self@, name) {
            let j = place(self@, name);
            assert(self@[j].name == self.names@[j]@);
        }
    }

    /// A cookie that was put under a name that is there stands in the place
    /// of the one that was there.
    proof fn lemma_replaced(before: OrderedJar, after: OrderedJar, i: int, c: Crumb)
        requires
            before.wf(),
            0 <= i < before.names@.len(),
            before.names@[i]@ == c.name,
            after.names@ == before.names@,
            jar_cookies(after.jar) == jar_cookies(before.jar).insert(c.name, c),
        ensures
            after.wf(),
            after@ == with_crumb(before@, c),
    {
        before.lemma_place(i);
        assert(after@ =~= before@.update(i, c));
    }

    /// A cookie that was put under a name that was not there, with the name
    /// behind the others, stands behind the others.
    proof fn lemma_appended(before: OrderedJar, after: OrderedJar, c: Crumb)
        requires
            before.wf(),
            forall|i: int|
                0 <= i < before.names@.len() ==> (#[trigger] before.names@[i])@ != c.name,
            after.names@.len() == before.names@.len() + 1,
            forall|i: int|
                0 <= i < before.names@.len() ==> #[trigger] after.names@[i] == before.names@[i],
            after.names@[before.names@.len() as int]@ == c.name,
            jar_cookies(after.jar) == jar_cookies(before.jar).insert(c.name, c),
        ensures
            after.wf(),
            after@ == with_crumb(before@, c),
    {
        before.lemma_absent(c.name);
        assert(after@ =~= before@.push(c));
        assert forall|k: Seq<char>| #[trigger]
            jar_cookies(after.jar).contains_key(k) implies exists|i: int|
            0 <= i < after.names@.len() && (#[trigger] after.names@[i])@ == k by {
            if k == c.name {
                assert(after.names@[after.names@.len() - 1]@ == k);
            } else {
                let i = choose|i: int|
                    0 <= i < before.names@.len() && (#[trigger] before.names@[i])@ == k;
                assert(after.names@[i]@ == k);
            }
        }
    }

    /// A jar without cookies.
    pub fn new() -> (out: OrderedJar)
        ensures
            out.wf(),
            out@ == Seq::<Crumb>::empty(),
    {
        let out = OrderedJar { names: Vec::new(), jar: new_jar() };
        assert(out@ =~= Seq::<Crumb>::empty());
        out
    }

    /// Puts a cookie into the jar, in the place of the cookie of its name
    /// where there is one.
    fn add(&mut self, cookie: Cookie<'static>)
        requires
            old(self).wf(),
        ensures
            final(self).wf(),
            final(self)@ == with_crumb(old(self)@, cookie_crumb(cookie)),
    {
        let ghost before = *self;
        let ghost c = cookie_crumb(cookie);
        let name = cookie_name(&cookie);
        let at = find_name(&self.names, &name);
        add_cookie(&mut self.jar, cookie);
        match at {
            Some(i) => {
                proof {
                    Self::lemma_replaced(before, *self, i as int, c);
                }
            },
            None => {
                self.names.push(name);
                proof {
                    Self::lemma_appended(before, *self, c);
                }
            },
        }
    }

    /// Parses `segment` as a cookie and puts it into the jar. A piece of text
    /// that is no cookie is left out, and so is a cookie whose text cannot be
    /// written as the value of a header.
    pub fn add_parsed(&mut self, segment: &str)
        requires
            old(self).wf(),
        ensures
            final(self).wf(),
            final(self)@ == match taken_cookie(segment@) {
                Some(c) => with_crumb(old(self)@, c),
                None => old(self)@,
            },
    {
        match parse_cookie(segment) {
            None => {},
            Some(cookie) => {
                let text = cookie_text(&cookie);
                if can_be_written(text.as_str()) {
                    self.add(cookie);
                }
            },
        }
    }

    /// Puts the cookie of that name and value into the jar, in the place of
    /// the cookie of that name where there is one.
    pub fn put(&mut self, name: &str, value: &str)
        requires
            old(self).wf(),
        ensures
            final(self).wf(),
            final(self)@ == with_crumb(old(self)@, plain_crumb(name@, value@)),
    {
        self.add(new_cookie(name, value));
    }

    /// Takes the cookie of that name out of the jar.
    pub fn remove(&mut self, name: &str)
        requires
            old(self).wf(),
        ensures
            final(self).wf(),
            final(self)@ == without_crumb(old(self)@, name@),
    {
        let ghost before = *self;
        let key = name.to_owned();
        let at = find_name(&self.names, &key);
        remove_cookie(&mut self.jar, name);
        match at {
            Some(i) => {
                proof {
                    before.lemma_place(i as int);
                }
                self.names.remove(i);
                assert(self@ =~= before@.remove(i as int));
                assert forall|k: Seq<char>| #[trigger]
                    jar_cookies(self.jar).contains_key(k) implies exists|j: int|
                    0 <= j < self.names@.len() && (#[trigger] self.names@[j])@ == k by {
                    let j = choose|j: int|
                        0 <= j < before.names@.len() && (#[trigger] before.names@[j])@ == k;
                    if j < i {
                        assert(self.names@[j]@ == k);
                    } else {
                        assert(self.names@[j - 1]@ == k);
                    }
                }
            },
            None => {
                proof {
                    before.lemma_absent(name@);
                }
                assert(jar_cookies(self.jar) =~= jar_cookies(before.jar));
                assert(self@ =~= before@);
            },
        }
    }

    /// The value of the cookie of that name.
    pub fn value(&self, name: &str) -> (out: Option<String>)
        requires
            self.wf(),
        ensures
            out is Some == holds(self@, name@),
            out matches Some(v) ==> Some(v@) == value_in(self@, name@),
    {
        proof {
            self.lemma_lookup(name@);
        }
        match find_cookie(&self.jar, name) {
            Some(cookie) => Some(cookie_value(&cookie)),
            None => None,
        }
    }

    /// The texts that stand for the cookies in a header, in their order.
    pub fn texts(&self) -> (out: Vec<String>)
        requires
            self.wf(),
        ensures
            out@.len() == self@.len(),
            forall|i: int| 0 <= i < out@.len() ==> (#[trigger] out@[i])@ == self@[i].text,
    {
        let mut out: Vec<String> = Vec::new();
        let mut i: usize = 0;
        while i < self.names.len()
            invariant
                self.wf(),
                i <= self.names@.len(),
                out@.len() == i,
                forall|j: int| 0 <= j < i ==> (#[trigger] out@[j])@ == self@[j].text,
            decreases self.names@.len() - i,
        {
            match find_cookie(&self.jar, self.names[i].as_str()) {
                Some(cookie) => {
                    out.push(cookie_text(&cookie));
                },
                None => {
                    assert(false);
                },
            }
            i += 1;
        }
        out
    }
}

} // verus!

//! Text as sequences of characters: conversions, and the replacement of every
//! occurrence of a fixed piece of text.

use vstd::prelude::*;

verus! {

/// `String::push` appends one character to the end of the string.
pub assume_specification[ String::push ](s: &mut String, c: char)
    ensures
        final(s)@ == old(s)@.push(c),
;

/// `text` with every occurrence of `from` replaced by `to`.
///
/// The text is read from the left. Where `from` stands, `to` is written and
/// reading goes on behind the occurrence, so occurrences that are replaced
/// never overlap. Any other character is copied. The empty text occurs before
/// every character and once more at the end.
pub open spec fn replaced(text: Seq<char>, from: Seq<char>, to: Seq<char>) -> Seq<char>
    decreases text.len(),
{
    if from.len() == 0 {
        if text.len() == 0 {
            to
        } else {
            to + seq![text[0]] + replaced(text.skip(1), from, to)
        }
    } else if from.is_prefix_of(text) {
        to + replaced(text.skip(from.len() as int), from, to)
    } else if text.len() == 0 {
        text
    } else {
        seq![text[0]] + replaced(text.skip(1), from, to)
    }
}

/// Whether `piece` stands in `text` at position `at`.
pub open spec fn occurs_at(text: Seq<char>, at: int, piece: Seq<char>) -> bool {
    0 <= at && at + piece.len() <= text.len() && text.subrange(at, at + piece.len()) == piece
}

/// Whether `piece` stands somewhere in `text`.
pub open spec fn occurs_in(text: Seq<char>, piece: Seq<char>) -> bool {
    exists|at: int| occurs_at(text, at, piece)
}

/// The characters of `text`.
pub fn chars_of(text: &str) -> (out: Vec<char>)
    ensures
        out@ == text@,
{
    let mut out: Vec<char> = Vec::new();
    for c in it: text.chars()
        invariant
            out@ == it.seq().take(it.index() as int),
            it.seq() == text@,
    {
        out.push(c);
    }
    out
}

/// The string made of `chars`.
pub fn string_of(chars: &Vec<char>) -> (out: String)
    ensures
        out@ == chars@,
{
    let mut out = String::new();
    let mut i: usize = 0;
    while i < chars.len()
        invariant
            i <= chars.len(),
            out@ == chars@.take(i as int),
        decreases chars.len() - i,
    {
        out.push(chars[i]);
        i += 1;
    }
    out
}

/// Whether `piece` stands in `text` at position `at`.
pub fn stands_at(text: &Vec<char>, at: usize, piece: &Vec<char>) -> (r: bool)
    ensures
        r == occurs_at(text@, at as int, piece@),
{
    if at > text.len() || piece.len() > text.len() - at {
        return false;
    }
    let mut k: usize = 0;
    while k < piece.len()
        invariant
            k <= piece.len(),
            at + piece.len() <= text.len(),
            forall|j: int| 0 <= j < k ==> text@[at + j] == piece@[j],
        decreases piece.len() - k,
    {
        if text[at + k] != piece[k] {
            assert(text@.subrange(at as int, at + piece.len())[k as int] != piece@[k as int]);
            return false;
        }
        k += 1;
    }
    assert(text@.subrange(at as int, at + piece.len()) =~= piece@);
    true
}

/// Whether `piece` stands somewhere in `text`.
pub fn contains_chars(text: &Vec<char>, piece: &Vec<char>) -> (r: bool)
    ensures
        r == occurs_in(text@, piece@),
{
    let mut at: usize = 0;
    loop
        invariant
            at <= text.len(),
            forall|j: int| 0 <= j < at ==> !occurs_at(text@, j, piece@),
        decreases text.len() - at,
    {
        if stands_at(text, at, piece) {
            return true;
        }
        if at == text.len() {
            return false;
        }
        at += 1;
    }
}

/// Replaces every occurrence of `from` in `text` by `to`.
pub fn replace_chars(text: &Vec<char>, from: &Vec<char>, to: &Vec<char>) -> (out: Vec<char>)
    ensures
        out@ == replaced(text@, from@, to@),
{
    let mut out: Vec<char> = Vec::new();
    let mut i: usize = 0;
    proof {
        assert(text@.skip(0) =~= text@);
        assert(out@ + replaced(text@, from@, to@) =~= replaced(text@, from@, to@));
    }
    while i < text.len()
        invariant
            i <= text.len(),
            replaced(text@, from@, to@) == out@ + replaced(text@.skip(i as int), from@, to@),
        decreases text.len() - i,
    {
        let ghost rest = text@.skip(i as int);
        let ghost head = out@;
        if from.len() == 0 {
            out.extend_from_slice(to.as_slice());
            out.push(text[i]);
            proof {
                assert(rest.skip(1) =~= text@.skip(i + 1));
                assert(out@ =~= head + (to@ + seq![rest[0]]));
                assert(out@ + replaced(rest.skip(1), from@, to@) =~= head + (to@ + seq![rest[0]]
                    + replaced(rest.skip(1), from@, to@)));
            }
            i += 1;
        } else if stands_at(text, i, from) {
            out.extend_from_slice(to.as_slice());
            proof {
                assert(rest.subrange(0, from@.len() as int) =~= text@.subrange(
                    i as int,
                    i + from@.len(),
                ));
                assert(from@.is_prefix_of(rest));
                assert(rest.skip(from@.len() as int) =~= text@.skip(i + from@.len()));
                assert(out@ + replaced(rest.skip(from@.len() as int), from@, to@) =~= head + (to@
                    + replaced(rest.skip(from@.len() as int), from@, to@)));
            }
            i += from.len();
        } else {
            out.push(text[i]);
            proof {
                if from@.is_prefix_of(rest) {
                    assert(rest.subrange(0, from@.len() as int) =~= text@.subrange(
                        i as int,
                        i + from@.len(),
                    ));
                }
                assert(rest.skip(1) =~= text@.skip(i + 1));
                assert(out@ + replaced(rest.skip(1), from@, to@) =~= head + (seq![rest[0]]
                    + replaced(rest.skip(1), from@, to@)));
            }
            i += 1;
        }
    }
    if from.len() == 0 {
        out.extend_from_slice(to.as_slice());
    }
    proof {
        assert(text@.skip(i as int) =~= Seq::<char>::empty());
        assert(out@ =~= replaced(text@, from@, to@));
    }
    out
}

/// Replaces every occurrence of `from` in `text` by `to`.
pub fn replace_text(text: &str, from: &str, to: &str) -> (out: String)
    ensures
        out@ == replaced(text@, from@, to@),
{
    let text = chars_of(text);
    let from = chars_of(from);
    let to = chars_of(to);
    let out = replace_chars(&text, &from, &to);
    string_of(&out)
}

/// A text in which `from` does not occur is left as it is.
pub proof fn lemma_replaced_without_occurrence(text: Seq<char>, from: Seq<char>, to: Seq<char>)
    requires
        !occurs_in(text, from),
    ensures
        replaced(text, from, to) == text,
    decreases text.len(),
{
    if from.len() == 0 {
        assert(occurs_at(text, 0, from)) by {
            assert(text.subrange(0, 0) =~= from);
        }
    } else if from.is_prefix_of(text) {
        assert(occurs_at(text, 0, from));
    } else if text.len() > 0 {
        assert forall|at: int| !occurs_at(text.skip(1), at, from) by {
            if occurs_at(text.skip(1), at, from) {
                assert(text.skip(1).subrange(at, at + from.len()) =~= text.subrange(
                    at + 1,
                    at + 1 + from.len(),
                ));
                assert(occurs_at(text, at + 1, from));
            }
        }
        lemma_replaced_without_occurrence(text.skip(1), from, to);
        assert(seq![text[0]] + text.skip(1) =~= text);
    }
}

/// Where the first occurrence of a text that is not empty stands at `at`, the
/// result is what lies in front of it, then `to`, then the result for what lies
/// behind it.
pub proof fn lemma_replaced_at_first_occurrence(
    text: Seq<char>,
    from: Seq<char>,
    to: Seq<char>,
    at: int,
)
    requires
        from.len() > 0,
        occurs_at(text, at, from),
        forall|j: int| 0 <= j < at ==> !occurs_at(text, j, from),
    ensures
        replaced(text, from, to) == text.take(at) + to + replaced(
            text.skip(at + from.len()),
            from,
            to,
        ),
    decreases at,
{
    if at == 0 {
        assert(text.take(0) + to =~= to);
    } else {
        assert(!occurs_at(text, 0, from));
        let rest = text.skip(1);
        assert(rest.subrange(at - 1, at - 1 + from.len()) =~= text.subrange(at, at + from.len()));
        assert forall|j: int| 0 <= j < at - 1 implies !occurs_at(rest, j, from) by {
            if occurs_at(rest, j, from) {
                assert(rest.subrange(j, j + from.len()) =~= text.subrange(
                    j + 1,
                    j + 1 + from.len(),
                ));
                assert(occurs_at(text, j + 1, from));
            }
        }
        lemma_replaced_at_first_occurrence(rest, from, to, at - 1);
        assert(rest.skip(at - 1 + from.len()) =~= text.skip(at + from.len()));
        assert(seq![text[0]] + (rest.take(at - 1) + to + replaced(
            text.skip(at + from.len()),
            from,
            to,
        )) =~= text.take(at) + to + replaced(text.skip(at + from.len()), from, to));
    }
}

} // verus!

//! Changes to header fields.
//!
//! A change can rewrite or remove a field that is there. It never adds one.
//! Removing takes away every value under the name. Rewriting reads the first
//! value under the name and makes the new text the one value of the field.
//! Where the value cannot be read as text, where the new text cannot be
//! written as a value, or where the map does not take it, nothing is written:
//! the entry is left out and its position is reported.

use crate::headers::{
    all_values, can_be_read, field_key, field_name, field_value, field_values, has_field,
    has_room_for, header_fields, insert_field, is_field_text, is_readable, remove_field,
    room_for, set_first_value, text_of, value_text,
};
use crate::rule::{MapModify, Modify};
use http::header::{HeaderMap, HeaderValue};
use vstd::prelude::*;
use vstd::utf8::encode_utf8;

verus! {

impl MapModify {
    /// Whether the entry asks for a new value of a field that is there.
    pub open spec fn rewrites_field(&self, fields: Map<Seq<char>, Seq<Seq<u8>>>) -> bool {
        !self.remove && self.value is Some && has_field(fields, self.key@)
    }

    /// The text that the entry makes of the first value of its field.
    pub open spec fn field_text(&self, fields: Map<Seq<char>, Seq<Seq<u8>>>) -> Seq<char>
        recommends
            self.rewrites_field(fields),
    {
        self.value->0.applied(text_of(field_values(fields, self.key@)[0]))
    }

    /// Whether the new value can be written: the first value of the field can
    /// be read, the text that the entry makes of it can stand in a header, and
    /// the map takes it as the one value of the field. It does where the field
    /// has one value, which gives way to it, and where the map has room.
    pub open spec fn field_fits(&self, fields: Map<Seq<char>, Seq<Seq<u8>>>) -> bool
        recommends
            self.rewrites_field(fields),
    {
        &&& is_readable(field_values(fields, self.key@)[0])
        &&& is_field_text(self.field_text(fields))
        &&& field_values(fields, self.key@).len() == 1 || room_for(fields, 0)
    }

    /// Whether the entry is left out: it asks for a new value that cannot be
    /// written.
    pub open spec fn field_skipped(&self, fields: Map<Seq<char>, Seq<Seq<u8>>>) -> bool {
        self.rewrites_field(fields) && !self.field_fits(fields)
    }

    /// The fields after the entry was applied to `fields`.
    pub open spec fn field_edited(&self, fields: Map<Seq<char>, Seq<Seq<u8>>>) -> Map<
        Seq<char>,
        Seq<Seq<u8>>,
    > {
        if self.remove {
            if has_field(fields, self.key@) {
                fields.remove(field_key(self.key@))
            } else {
                fields
            }
        } else if self.rewrites_field(fields) && self.field_fits(fields) {
            fields.insert(field_key(self.key@), seq![encode_utf8(self.field_text(fields))])
        } else {
            fields
        }
    }
}

/// The fields after the entries of `mds` were applied in their order.
pub open spec fn fields_edited(mds: Seq<MapModify>, fields: Map<Seq<char>, Seq<Seq<u8>>>) -> Map<
    Seq<char>,
    Seq<Seq<u8>>,
>
    decreases mds.len(),
{
    if mds.len() == 0 {
        fields
    } else {
        mds.last().field_edited(fields_edited(mds.drop_last(), fields))
    }
}

/// The positions of the entries of `mds` that are left out when they are
/// applied in their order.
pub open spec fn fields_skipped(mds: Seq<MapModify>, fields: Map<Seq<char>, Seq<Seq<u8>>>) -> Seq<
    usize,
>
    decreases mds.len(),
{
    if mds.len() == 0 {
        Seq::empty()
    } else if mds.last().field_skipped(fields_edited(mds.drop_last(), fields)) {
        fields_skipped(mds.drop_last(), fields).push((mds.len() - 1) as usize)
    } else {
        fields_skipped(mds.drop_last(), fields)
    }
}

impl Modify {
    /// Applies one entry to the header map and says whether it was applied.
    /// An entry that is left out leaves the map as it is.
    pub fn modify_header(
        &self,
        header: &mut HeaderMap<HeaderValue>,
        md: &MapModify,
    ) -> (applied: bool)
        ensures
            header_fields(*final(header)) == md.field_edited(header_fields(*old(header))),
            applied == !md.field_skipped(header_fields(*old(header))),
            !applied ==> *final(header) == *old(header),
            !has_field(header_fields(*old(header)), md.key@) ==> *final(header) == *old(header),
            md.value is None && !md.remove ==> *final(header) == *old(header),
    {
        if md.remove {
            remove_field(header, md.key.as_str());
            return true;
        }
        match &md.value {
            None => true,
            Some(action) => {
                let values = all_values(header, md.key.as_str());
                if values.len() == 0 {
                    return true;
                }
                if !can_be_read(&values[0]) {
                    return false;
                }
                let current = value_text(&values[0]);
                let new = action.exec_action(current.as_str());
                match field_value(new.as_str()) {
                    None => false,
                    Some(value) => {
                        if values.len() == 1 {
                            let ghost before = header_fields(*header);
                            let done = set_first_value(header, md.key.as_str(), value);
                            proof {
                                assert(before[field_key(md.key@)].update(0, encode_utf8(new@))
                                    =~= seq![encode_utf8(new@)]);
                            }
                            done
                        } else if has_room_for(header, 0) {
                            match field_name(md.key.as_str()) {
                                Some(name) => insert_field(header, name, value),
                                None => false,
                            }
                        } else {
                            false
                        }
                    },
                }
            },
        }
    }

    /// Applies the entries of `mds` to the header map in their order and
    /// returns the positions of those that were left out.
    pub fn modify_headers(
        &self,
        header: &mut HeaderMap<HeaderValue>,
        mds: &Vec<MapModify>,
    ) -> (skipped: Vec<usize>)
        ensures
            header_fields(*final(header)) == fields_edited(mds@, header_fields(*old(header))),
            skipped@ == fields_skipped(mds@, header_fields(*old(header))),
            mds@.len() == 0 ==> *final(header) == *old(header),
    {
        let mut skipped: Vec<usize> = Vec::new();
        let mut i: usize = 0;
        while i < mds.len()
            invariant
                i <= mds.len(),
                header_fields(*header) == fields_edited(
                    mds@.take(i as int),
                    header_fields(*old(header)),
                ),
                skipped@ == fields_skipped(mds@.take(i as int), header_fields(*old(header))),
                i == 0 ==> *header == *old(header),
            decreases mds.len() - i,
        {
            proof {
                assert(mds@.take(i + 1).drop_last() =~= mds@.take(i as int));
            }
            let applied = self.modify_header(header, &mds[i]);
            if !applied {
                skipped.push(i);
            }
            i += 1;
        }
        proof {
            assert(mds@.take(i as int) =~= mds@);
        }
        skipped
    }
}

/// A list without entries changes nothing.
pub proof fn lemma_no_entries_no_change(fields: Map<Seq<char>, Seq<Seq<u8>>>)
    ensures
        fields_edited(Seq::<MapModify>::empty(), fields) == fields,
        fields_skipped(Seq::<MapModify>::empty(), fields) == Seq::<usize>::empty(),
{
}

/// An entry that does not remove changes nothing where its field is missing.
pub proof fn lemma_missing_field_unchanged(md: MapModify, fields: Map<Seq<char>, Seq<Seq<u8>>>)
    requires
        !md.remove,
        !has_field(fields, md.key@),
    ensures
        md.field_edited(fields) == fields,
        !md.field_skipped(fields),
{
}

/// An entry that removes takes its field away and leaves every other field as
/// it is.
pub proof fn lemma_remove_takes_one_field(md: MapModify, fields: Map<Seq<char>, Seq<Seq<u8>>>)
    requires
        md.remove,
        has_field(fields, md.key@),
    ensures
        !md.field_edited(fields).contains_key(field_key(md.key@)),
        forall|k: Seq<char>|
            k != field_key(md.key@) ==> (md.field_edited(fields).contains_key(k)
                <==> fields.contains_key(k)),
        forall|k: Seq<char>|
            k != field_key(md.key@) && fields.contains_key(k) ==> md.field_edited(fields)[k]
                == fields[k],
{
}

/// A field that no entry names comes through the changes as it is.
pub proof fn lemma_other_fields_stay(
    mds: Seq<MapModify>,
    fields: Map<Seq<char>, Seq<Seq<u8>>>,
    key: Seq<char>,
)
    requires
        forall|i: int| 0 <= i < mds.len() ==> field_key((#[trigger] mds[i]).key@) != key,
    ensures
        fields_edited(mds, fields).contains_key(key) == fields.contains_key(key),
        fields.contains_key(key) ==> fields_edited(mds, fields)[key] == fields[key],
    decreases mds.len(),
{
    if mds.len() > 0 {
        assert(mds.last() == mds[mds.len() - 1]);
        assert forall|i: int| 0 <= i < mds.drop_last().len() implies field_key(
            (#[trigger] mds.drop_last()[i]).key@,
        ) != key by {
            assert(mds.drop_last()[i] == mds[i]);
        }
        lemma_other_fields_stay(mds.drop_last(), fields, key);
    }
}

} // verus!

//! Laws of JSON objects that are made of fields.
use crate::json::{entries, record, Tree};
use crate::mcp::part;
use vstd::prelude::*;

verus! {

/// An object has the names of its fields and no other, and under each name the value of the last
/// field of that name.
pub proof fn objects_hold_their_fields(fields: Seq<(Seq<char>, Tree)>)
    ensures
        forall|k: Seq<char>| #[trigger]
            entries(fields).contains_key(k) <==> exists|i: int| 0 <= i < fields.len() && (#[trigger] fields[i]).0 == k,
        forall|i: int| #![trigger fields[i]]
            0 <= i < fields.len() && (forall|j: int| i < j < fields.len() ==> (#[trigger] fields[j]).0 != fields[i].0)
                ==> entries(fields)[fields[i].0] == fields[i].1,
    decreases fields.len(),
{
    if fields.len() > 0 {
        let front = fields.drop_last();
        let last = fields.last();
        objects_hold_their_fields(front);
        assert forall|k: Seq<char>| #[trigger] entries(fields).contains_key(k) <==> exists|i: int|
            0 <= i < fields.len() && (#[trigger] fields[i]).0 == k by {
            if entries(front).contains_key(k) {
                let i = choose|i: int| 0 <= i < front.len() && (#[trigger] front[i]).0 == k;
                assert(fields[i].0 == k);
            }
            if last.0 == k {
                assert(fields[fields.len() - 1].0 == k);
            }
            if exists|i: int| 0 <= i < fields.len() && (#[trigger] fields[i]).0 == k {
                let i = choose|i: int| 0 <= i < fields.len() && (#[trigger] fields[i]).0 == k;
                if i < front.len() {
                    assert(front[i].0 == k);
                }
            }
        }
        assert forall|i: int| #![trigger fields[i]]
            0 <= i < fields.len() && (forall|j: int| i < j < fields.len() ==> (#[trigger] fields[j]).0 != fields[i].0) implies entries(
            fields,
        )[fields[i].0] == fields[i].1 by {
            if i < front.len() {
                assert(front[i] == fields[i]);
                assert(fields[fields.len() - 1].0 != fields[i].0);
                assert forall|j: int| i < j < front.len() implies (#[trigger] front[j]).0 != front[i].0 by {
                    assert(fields[j] == front[j]);
                }
            }
        }
    }
}

/// A field of an object whose name no later field has is what is read under that name.
pub proof fn fields_are_read_back(fields: Seq<(Seq<char>, Tree)>, i: int)
    requires
        0 <= i < fields.len(),
        forall|j: int| i < j < fields.len() ==> (#[trigger] fields[j]).0 != fields[i].0,
    ensures
        part(Some(record(fields)), fields[i].0) == Some(fields[i].1),
{
    objects_hold_their_fields(fields);
    assert(entries(fields).contains_key(fields[i].0));
}

/// A name that no field has is not read.
pub proof fn other_names_are_not_read(fields: Seq<(Seq<char>, Tree)>, k: Seq<char>)
    requires
        forall|j: int| 0 <= j < fields.len() ==> (#[trigger] fields[j]).0 != k,
    ensures
        part(Some(record(fields)), k) is None,
{
    objects_hold_their_fields(fields);
}

} // verus!

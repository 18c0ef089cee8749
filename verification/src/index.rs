//! The maps that the engine keeps in memory, and the calls into `dashmap` that they take.
//!
//! The engine holds each map alone, so a change takes the map by `&mut`.

use crate::text::same;
use dashmap::mapref::one::Ref;
use dashmap::DashMap;
use vstd::prelude::*;

verus! {

/// The index of one field: where the documents with a value start, by the value's text.
pub type FieldIndex = DashMap<String, Vec<u64>>;

/// The indexes of one collection, by field.
pub type CollIndexes = DashMap<String, FieldIndex>;

/// The indexes of all collections, by database and collection.
pub type Indexes = DashMap<(String, String), CollIndexes>;

/// The length of each collection that is open for writing, by database and collection.
pub type Handles = DashMap<(String, String), u64>;

/// What the index of one field holds.
pub type FieldView = Map<Seq<char>, Seq<u64>>;

/// What the indexes of one collection hold.
pub type CollView = Map<Seq<char>, FieldView>;

/// A database and a collection.
pub type Place = (Seq<char>, Seq<char>);

#[verifier::external_type_specification]
#[verifier::external_body]
#[verifier::reject_recursive_types(K)]
#[verifier::reject_recursive_types(V)]
#[verifier::reject_recursive_types(S)]
pub struct ExDashMap<K, V, S>(dashmap::DashMap<K, V, S>);

#[verifier::external_type_specification]
#[verifier::external_body]
#[verifier::reject_recursive_types(K)]
#[verifier::reject_recursive_types(V)]
pub struct ExRef<'a, K, V>(dashmap::mapref::one::Ref<'a, K, V>);

/// What the index of a field holds.
pub uninterp spec fn offsets_of(m: DashMap<String, Vec<u64>>) -> Map<Seq<char>, Seq<u64>>;

/// What the indexes of a collection hold.
pub uninterp spec fn fields_of(m: DashMap<String, DashMap<String, Vec<u64>>>) -> Map<
    Seq<char>,
    Map<Seq<char>, Seq<u64>>,
>;

/// What the indexes of all collections hold.
pub uninterp spec fn collections_of(
    m: DashMap<(String, String), DashMap<String, DashMap<String, Vec<u64>>>>,
) -> Map<(Seq<char>, Seq<char>), Map<Seq<char>, Map<Seq<char>, Seq<u64>>>>;

/// The lengths of the open collections.
pub uninterp spec fn lengths_of(m: DashMap<(String, String), u64>) -> Map<
    (Seq<char>, Seq<char>),
    u64,
>;

/// The index that a guard from `DashMap::get` leads to.
pub uninterp spec fn guarded_field(
    r: Ref<'_, String, DashMap<String, Vec<u64>>>,
) -> Map<Seq<char>, Seq<u64>>;

/// The indexes that a guard from `DashMap::get` leads to.
pub uninterp spec fn guarded_collection(
    r: Ref<'_, (String, String), DashMap<String, DashMap<String, Vec<u64>>>>,
) -> Map<Seq<char>, Map<Seq<char>, Seq<u64>>>;

/// The offsets that an index holds under `text`.
pub open spec fn offsets_under(index: FieldView, text: Seq<char>) -> Seq<u64> {
    if index.contains_key(text) {
        index[text]
    } else {
        seq![]
    }
}

// ---- the index of one field ----

/// `DashMap::new`: an index that holds nothing.
#[verifier::external_body]
pub(crate) fn new_field_index() -> (res: FieldIndex)
    ensures
        offsets_of(res) == (Map::<Seq<char>, Seq<u64>>::empty()),
{
    DashMap::new()
}

/// `DashMap::entry` with `or_default`, and a `push` on the list behind it: the offset comes last
/// in the list under the text, which is empty where there was none.
#[verifier::external_body]
pub(crate) fn push_offset(index: &mut FieldIndex, text: String, offset: u64)
    ensures
        offsets_of(*final(index)) == offsets_of(*old(index)).insert(
            text@,
            offsets_under(offsets_of(*old(index)), text@).push(offset),
        ),
{
    index.entry(text).or_default().push(offset)
}

/// `DashMap::get`, and a copy of the list that it leads to.
#[verifier::external_body]
pub(crate) fn get_offsets(index: &FieldIndex, text: &str) -> (res: Option<Vec<u64>>)
    ensures
        match res {
            Some(list) => offsets_of(*index).contains_key(text@) && offsets_of(*index)[text@]
                == list@,
            None => !offsets_of(*index).contains_key(text@),
        },
{
    index.get(text).map(|found| found.value().clone())
}

// ---- the indexes of one collection ----

/// `DashMap::new`: no field is indexed.
#[verifier::external_body]
pub(crate) fn new_coll_indexes() -> (res: CollIndexes)
    ensures
        fields_of(res) == (Map::<Seq<char>, FieldView>::empty()),
{
    DashMap::new()
}

/// `DashMap::insert`, which replaces the index of the field.
#[verifier::external_body]
pub(crate) fn insert_field(fields: &mut CollIndexes, field: String, index: FieldIndex)
    ensures
        fields_of(*final(fields)) == fields_of(*old(fields)).insert(field@, offsets_of(index)),
{
    fields.insert(field, index);
}

/// `DashMap::remove`, which hands back the index.
#[verifier::external_body]
pub(crate) fn remove_field(fields: &mut CollIndexes, field: &str) -> (res: Option<FieldIndex>)
    ensures
        fields_of(*final(fields)) == fields_of(*old(fields)).remove(field@),
        match res {
            Some(index) => fields_of(*old(fields)).contains_key(field@) && fields_of(
                *old(fields),
            )[field@] == offsets_of(index),
            None => !fields_of(*old(fields)).contains_key(field@),
        },
{
    fields.remove(field).map(|entry| entry.1)
}

/// `DashMap::contains_key`.
#[verifier::external_body]
pub(crate) fn has_field(fields: &CollIndexes, field: &str) -> (res: bool)
    ensures
        res == fields_of(*fields).contains_key(field@),
{
    fields.contains_key(field)
}

/// `DashMap::get`.
#[verifier::external_body]
pub(crate) fn get_field<'a>(fields: &'a CollIndexes, field: &str) -> (res: Option<
    Ref<'a, String, FieldIndex>,
>)
    ensures
        match res {
            Some(r) => fields_of(*fields).contains_key(field@) && guarded_field(r) == fields_of(
                *fields,
            )[field@],
            None => !fields_of(*fields).contains_key(field@),
        },
{
    fields.get(field)
}

/// `Ref::value` on the index of a field.
#[verifier::external_body]
pub(crate) fn field_behind<'a, 'b>(r: &'b Ref<'a, String, FieldIndex>) -> (res: &'b FieldIndex)
    ensures
        offsets_of(*res) == guarded_field(*r),
{
    r.value()
}

/// `DashMap::iter`, of which the keys are taken: each field once, in no order that is promised.
#[verifier::external_body]
pub(crate) fn field_names(fields: &CollIndexes) -> (res: Vec<String>)
    ensures
        forall|i: int, j: int| 0 <= i < j < res@.len() ==> res@[i]@ != res@[j]@,
        forall|i: int|
            0 <= i < res@.len() ==> fields_of(*fields).contains_key((#[trigger] res@[i])@),
        forall|k: Seq<char>| #[trigger]
            fields_of(*fields).contains_key(k) ==> exists|i: int|
                0 <= i < res@.len() && (#[trigger] res@[i])@ == k,
{
    fields.iter().map(|entry| entry.key().clone()).collect()
}

// ---- the indexes of all collections ----

/// `DashMap::new`: no collection has indexes.
#[verifier::external_body]
pub(crate) fn new_indexes() -> (res: Indexes)
    ensures
        collections_of(res) == (Map::<Place, CollView>::empty()),
{
    DashMap::new()
}

/// `DashMap::insert`, which replaces the indexes of the collection.
#[verifier::external_body]
pub(crate) fn insert_collection(all: &mut Indexes, place: (String, String), fields: CollIndexes)
    ensures
        collections_of(*final(all)) == collections_of(*old(all)).insert(
            (place.0@, place.1@),
            fields_of(fields),
        ),
{
    all.insert(place, fields);
}

/// `DashMap::remove`, which hands back the indexes.
#[verifier::external_body]
pub(crate) fn remove_collection(all: &mut Indexes, place: &(String, String)) -> (res: Option<
    CollIndexes,
>)
    ensures
        collections_of(*final(all)) == collections_of(*old(all)).remove((place.0@, place.1@)),
        match res {
            Some(fields) => collections_of(*old(all)).contains_key((place.0@, place.1@))
                && collections_of(*old(all))[(place.0@, place.1@)] == fields_of(fields),
            None => !collections_of(*old(all)).contains_key((place.0@, place.1@)),
        },
{
    all.remove(place).map(|entry| entry.1)
}

/// `DashMap::get`.
#[verifier::external_body]
pub(crate) fn get_collection<'a>(all: &'a Indexes, place: &(String, String)) -> (res: Option<
    Ref<'a, (String, String), CollIndexes>,
>)
    ensures
        match res {
            Some(r) => collections_of(*all).contains_key((place.0@, place.1@))
                && guarded_collection(r) == collections_of(*all)[(place.0@, place.1@)],
            None => !collections_of(*all).contains_key((place.0@, place.1@)),
        },
{
    all.get(place)
}

/// `Ref::value` on the indexes of a collection.
#[verifier::external_body]
pub(crate) fn collection_behind<'a, 'b>(
    r: &'b Ref<'a, (String, String), CollIndexes>,
) -> (res: &'b CollIndexes)
    ensures
        fields_of(*res) == guarded_collection(*r),
{
    r.value()
}

/// Whether two databases differ.
fn elsewhere(db: &str, other: &str) -> (res: bool)
    ensures
        res == (db@ != other@),
{
    !same(db, other)
}

/// `DashMap::retain` on the collections of other databases.
#[verifier::external_body]
pub(crate) fn retain_collections(all: &mut Indexes, db: &str)
    ensures
        collections_of(*final(all)) == collections_of(*old(all)).remove_keys(
            Set::new(|place: Place| place.0 == db@),
        ),
{
    all.retain(|place, _| elsewhere(&place.0, db))
}

// ---- the lengths of the open collections ----

/// `DashMap::new`: no collection is open.
#[verifier::external_body]
pub(crate) fn new_handles() -> (res: Handles)
    ensures
        lengths_of(res) == (Map::<Place, u64>::empty()),
{
    DashMap::new()
}

/// `DashMap::insert`, which replaces the length.
#[verifier::external_body]
pub(crate) fn insert_handle(all: &mut Handles, place: (String, String), length: u64)
    ensures
        lengths_of(*final(all)) == lengths_of(*old(all)).insert((place.0@, place.1@), length),
{
    all.insert(place, length);
}

/// `DashMap::remove`.
#[verifier::external_body]
pub(crate) fn remove_handle(all: &mut Handles, place: &(String, String))
    ensures
        lengths_of(*final(all)) == lengths_of(*old(all)).remove((place.0@, place.1@)),
{
    all.remove(place);
}

/// `DashMap::get`, and a copy of the length that it leads to.
#[verifier::external_body]
pub(crate) fn get_handle(all: &Handles, place: &(String, String)) -> (res: Option<u64>)
    ensures
        match res {
            Some(length) => lengths_of(*all).contains_key((place.0@, place.1@)) && lengths_of(
                *all,
            )[(place.0@, place.1@)] == length,
            None => !lengths_of(*all).contains_key((place.0@, place.1@)),
        },
{
    all.get(place).map(|found| *found.value())
}

/// `DashMap::retain` on the collections of other databases.
#[verifier::external_body]
pub(crate) fn retain_handles(all: &mut Handles, db: &str)
    ensures
        lengths_of(*final(all)) == lengths_of(*old(all)).remove_keys(
            Set::new(|place: Place| place.0 == db@),
        ),
{
    all.retain(|place, _| elsewhere(&place.0, db))
}

} // verus!

//! Laws of files: what they are called, which of them are listed and removed, and what the
//! sidecars among them say.

use crate::catalog::{
    directories, lists_names, log_file, removals, removed, sidecar_file, sorts, stems, DirEntry,
    FileRemoval,
};
use crate::index::{CollView, Place};
use crate::json::{json_parse, json_text, Json};
use crate::log::{all_text, field_index, log_records};
use crate::sidecar::{
    fields_in, indexable, loaded_file, loaded_files, loaded_indexes, named_fields, names_fields,
    says_fields, sidecar_json, strings_in, DirFile, FileRead, SidecarUpdate,
};
use crate::text::{bytes_le, text_of};
use vstd::prelude::*;
use vstd::utf8::encode_utf8;

verus! {

// ---- names of files ----

/// The log of a collection is called like the collection and ends with `.ndjson`; its sidecar ends
/// with `.index.json`.
pub proof fn law_files_are_called_like_their_collection(coll: Seq<char>)
    ensures
        log_file(coll) == coll + seq!['.', 'n', 'd', 'j', 's', 'o', 'n'],
        sidecar_file(coll) == coll + seq!['.', 'i', 'n', 'd', 'e', 'x', '.', 'j', 's', 'o', 'n'],
{
    reveal_strlit(".ndjson");
    reveal_strlit(".index.json");
    assert(".ndjson"@ =~= seq!['.', 'n', 'd', 'j', 's', 'o', 'n']);
    assert(".index.json"@ =~= seq!['.', 'i', 'n', 'd', 'e', 'x', '.', 'j', 's', 'o', 'n']);
}

// ---- listings ----

/// A listing of names holds each name of the set once, and no other, in the order of their bytes.
pub proof fn law_a_listing(list: Seq<Seq<char>>, set: Set<Seq<char>>)
    ensures
        lists_names(list, set) <==> {
            &&& forall|i: int, j: int| 0 <= i < j < list.len() ==> list[i] != list[j]
            &&& forall|i: int| 0 <= i < list.len() ==> set.contains(#[trigger] list[i])
            &&& forall|name: Seq<char>| set.contains(name) ==> list.contains(name)
            &&& forall|i: int, j: int|
                0 <= i < j < list.len() ==> bytes_le(
                    #[trigger] encode_utf8(list[i]),
                    #[trigger] encode_utf8(list[j]),
                )
        },
{
    if lists_names(list, set) {
        assert forall|i: int| 0 <= i < list.len() implies set.contains(#[trigger] list[i]) by {
            assert(list.contains(list[i]));
        }
    }
}

/// A sorted list holds each name as often as what was sorted does, in the order of their bytes.
pub proof fn law_a_sorted_list(list: Seq<Seq<char>>, source: Seq<Seq<char>>)
    ensures
        sorts(list, source) <==> {
            &&& list.to_multiset() == source.to_multiset()
            &&& forall|i: int, j: int|
                0 <= i < j < list.len() ==> bytes_le(
                    #[trigger] encode_utf8(list[i]),
                    #[trigger] encode_utf8(list[j]),
                )
        },
{
}

/// The directories are the entries that are directories, in their order.
pub proof fn law_directories_are_listed(entries: Seq<DirEntry>, entry: DirEntry)
    ensures
        directories(Seq::empty()).len() == 0,
        entry.is_dir ==> directories(entries.push(entry)) == directories(entries).push(entry.name@),
        !entry.is_dir ==> directories(entries.push(entry)) == directories(entries),
{
    assert(entries.push(entry).drop_last() =~= entries);
}

/// A name that consists of a stem and the suffix adds the stem; a name without the suffix adds
/// nothing.
pub proof fn law_stems_are_listed(
    names: Seq<Seq<char>>,
    stem: Seq<char>,
    other: Seq<char>,
    suffix: Seq<char>,
)
    requires
        !suffix.is_suffix_of(other),
    ensures
        stems(Seq::empty(), suffix).len() == 0,
        stems(names.push(stem + suffix), suffix) == stems(names, suffix).push(stem),
        stems(names.push(other), suffix) == stems(names, suffix),
{
    let name = stem + suffix;
    assert(names.push(name).drop_last() =~= names);
    assert(names.push(other).drop_last() =~= names);
    assert(suffix =~= name.skip(stem.len() as int));
    assert(name.take(name.len() - suffix.len()) =~= stem);
}

// ---- removals ----

/// With a database goes every file that is a log or a sidecar, however many there are, and no
/// other: a name that ends with `.ndjson` goes as a log, and one that ends with `.index.json` and
/// not with `.ndjson` goes as no log.
pub proof fn law_every_log_and_sidecar_goes(names: Seq<Seq<char>>, name: Seq<char>)
    ensures
        removed(names).contains((name, true)) <==> names.contains(name)
            && ".ndjson"@.is_suffix_of(name),
        removed(names).contains((name, false)) <==> names.contains(name)
            && ".index.json"@.is_suffix_of(name) && !".ndjson"@.is_suffix_of(name),
    decreases names.len(),
{
    if names.len() > 0 {
        let rest = names.drop_last();
        let last = names.last();
        law_every_log_and_sidecar_goes(rest, name);
        assert(names =~= rest.push(last));
        lemma_push_contains(rest, last, name);
        lemma_push_contains(removed(rest), (last, true), (name, true));
        lemma_push_contains(removed(rest), (last, true), (name, false));
        lemma_push_contains(removed(rest), (last, false), (name, true));
        lemma_push_contains(removed(rest), (last, false), (name, false));
    }
}

proof fn lemma_push_contains<A>(list: Seq<A>, last: A, a: A)
    ensures
        list.push(last).contains(a) <==> list.contains(a) || a == last,
{
    let more = list.push(last);
    if list.contains(a) {
        let i = choose|i: int| 0 <= i < list.len() && list[i] == a;
        assert(more[i] == a);
    }
    if a == last {
        assert(more[list.len() as int] == a);
    }
    if more.contains(a) && a != last {
        let i = choose|i: int| 0 <= i < more.len() && more[i] == a;
        assert(list[i] == a);
    }
}

/// Of two directories together those files go that go of each, in their order.
pub proof fn law_removals_add_up(a: Seq<Seq<char>>, b: Seq<Seq<char>>)
    ensures
        removed(a + b) == removed(a) + removed(b),
    decreases b.len(),
{
    if b.len() == 0 {
        assert(a + b =~= a);
        assert(removed(a) + removed(b) =~= removed(a));
    } else {
        law_removals_add_up(a, b.drop_last());
        assert((a + b).drop_last() =~= a + b.drop_last());
        let name = b.last();
        let left = removed(a);
        let right = removed(b.drop_last());
        assert((left + right).push((name, true)) =~= left + right.push((name, true)));
        assert((left + right).push((name, false)) =~= left + right.push((name, false)));
    }
}

/// A file that goes does so once for each time that it is named, in the order of the names.
pub proof fn law_one_file_goes_once(name: Seq<char>)
    ensures
        ".ndjson"@.is_suffix_of(name) ==> removed(seq![name]) == seq![(name, true)],
        !".ndjson"@.is_suffix_of(name) && ".index.json"@.is_suffix_of(name) ==> removed(seq![name])
            == seq![(name, false)],
        !".ndjson"@.is_suffix_of(name) && !".index.json"@.is_suffix_of(name) ==> removed(
            seq![name],
        ).len() == 0,
{
    assert(seq![name].drop_last() =~= Seq::empty());
    let none = removed(Seq::empty());
    assert(none.push((name, true)) =~= seq![(name, true)]);
    assert(none.push((name, false)) =~= seq![(name, false)]);
}

/// As many logs go as are counted.
pub proof fn law_as_many_logs_go_as_are_counted(names: Seq<Seq<char>>)
    ensures
        removed(names).filter(|f: (Seq<char>, bool)| f.1).len() == stems(names, ".ndjson"@).len(),
        names.filter(|name: Seq<char>| ".ndjson"@.is_suffix_of(name)).len() == stems(
            names,
            ".ndjson"@,
        ).len(),
    decreases names.len(),
{
    reveal(Seq::filter);
    let is_log = |f: (Seq<char>, bool)| f.1;
    if names.len() > 0 {
        let rest = names.drop_last();
        let name = names.last();
        law_as_many_logs_go_as_are_counted(rest);
        assert(removed(rest).push((name, true)).drop_last() =~= removed(rest));
        assert(removed(rest).push((name, false)).drop_last() =~= removed(rest));
        assert(removed(rest).push((name, true)).filter(is_log) == removed(rest).filter(
            is_log,
        ).push((name, true)));
        assert(removed(rest).push((name, false)).filter(is_log) == removed(rest).filter(is_log));
    }
}

/// The files in a list of removals, one by one.
pub proof fn law_removals_one_by_one(list: Seq<FileRemoval>, i: int)
    ensures
        removals(list).len() == list.len(),
        0 <= i < list.len() ==> removals(list)[i] == (list[i].file@, list[i].is_log),
{
}

// ---- sidecars ----

/// The strings of an array are taken one by one; values that are no strings are passed over.
pub proof fn law_strings_are_taken_one_by_one(list: Seq<Json>, s: Seq<char>, j: Json)
    requires
        !(j is Str),
    ensures
        strings_in(Seq::empty()).len() == 0,
        strings_in(list.push(Json::Str(s))) == strings_in(list).push(s),
        strings_in(list.push(j)) == strings_in(list),
{
    assert(list.push(Json::Str(s)).drop_last() =~= list);
    assert(list.push(j).drop_last() =~= list);
}

/// A sidecar names the strings in its member `fields`, whatever other members it has; it names no
/// fields where that is no array, or where it is no object or no JSON.
pub proof fn law_a_sidecar_names_its_fields(
    content: Seq<char>,
    members: Map<Seq<char>, Json>,
    list: Seq<Json>,
    value: Json,
    other: Json,
)
    requires
        !(value is Array),
        !(other is Object),
    ensures
        fields_in(Json::Object(members.insert("fields"@, Json::Array(list)))) == Some(
            strings_in(list),
        ),
        fields_in(Json::Object(members.insert("fields"@, value))) is None,
        fields_in(Json::Object(members.remove("fields"@))) is None,
        fields_in(other) is None,
        match json_parse(content) {
            Some(j) => named_fields(content) == fields_in(j),
            None => named_fields(content) is None,
        },
{
}

/// The value of a sidecar has one member, `fields`, and that names the fields in their order.
pub proof fn law_a_sidecar_has_one_member(fields: Seq<Seq<char>>, name: Seq<char>, i: int)
    ensures
        sidecar_json(fields) is Object,
        sidecar_json(fields)->Object_0.contains_key(name) <==> name == "fields"@,
        ({
            let list = sidecar_json(fields)->Object_0["fields"@];
            &&& list is Array
            &&& list->Array_0.len() == fields.len()
            &&& 0 <= i < fields.len() ==> list->Array_0[i] == Json::Str(fields[i])
        }),
{
}

/// There is a text for a sidecar exactly where there are fields, and it is the text of the value
/// that names each of them once, sorted; it is read back as that list.
pub proof fn law_a_sidecar_says_its_fields(text: Seq<char>, fields: Set<Seq<char>>)
    ensures
        says_fields(None, fields) <==> forall|f: Seq<char>| !fields.contains(f),
        says_fields(Some(text), fields) ==> exists|f: Seq<char>| fields.contains(f),
        says_fields(Some(text), fields) ==> exists|list: Seq<Seq<char>>|
            {
                &&& text == json_text(#[trigger] sidecar_json(list))
                &&& named_fields(text) == Some(list)
                &&& lists_names(list, fields)
            },
{
    if forall|f: Seq<char>| !fields.contains(f) {
        assert(fields =~= Set::<Seq<char>>::empty());
    }
    if says_fields(Some(text), fields) {
        let list = choose|list: Seq<Seq<char>>|
            {
                &&& #[trigger] lists_names(list, fields)
                &&& text == json_text(sidecar_json(list))
                &&& named_fields(text) == Some(list)
            };
        assert(text == json_text(sidecar_json(list)));
        if forall|f: Seq<char>| !fields.contains(f) {
            assert(fields =~= Set::<Seq<char>>::empty());
        }
    }
}

/// An update is about the sidecar of its collection, and makes it say the fields.
pub proof fn law_an_update_is_about_its_sidecar(
    update: SidecarUpdate,
    db: Seq<char>,
    coll: Seq<char>,
    fields: Set<Seq<char>>,
)
    ensures
        names_fields(update, (db, coll), fields) <==> update.path.dir@ == db && update.path.file@
            == sidecar_file(coll) && says_fields(text_of(update.content), fields),
{
}

/// The log that was read can be indexed where it is text; a missing log is empty, and one that
/// could not be read cannot be indexed.
pub proof fn law_what_can_be_indexed(bytes: Vec<u8>)
    ensures
        indexable(FileRead::Missing) == Some(Seq::<u8>::empty()),
        indexable(FileRead::Failed) is None,
        all_text(log_records(bytes@)) ==> indexable(FileRead::Bytes(bytes)) == Some(bytes@),
        !all_text(log_records(bytes@)) ==> indexable(FileRead::Bytes(bytes)) is None,
{
}

/// Of a log that can be indexed every named field gets its index, and no other field; of one that
/// cannot none does.
pub proof fn law_named_fields_are_indexed(
    fields: Seq<Seq<char>>,
    data: FileRead,
    field: Seq<char>,
)
    ensures
        match indexable(data) {
            Some(log) => {
                &&& loaded_indexes(fields, data).contains_key(field) <==> fields.contains(field)
                &&& fields.contains(field) ==> loaded_indexes(fields, data)[field] == field_index(
                    log_records(log),
                    field,
                )
            },
            None => !loaded_indexes(fields, data).contains_key(field),
        },
{
}

/// A file of a database stands for the indexes of a collection where it is called like a sidecar
/// and could be read as one: those are the indexes of the fields that it names. Any other file
/// stands for none.
pub proof fn law_a_sidecar_stands_for_its_indexes(file: DirFile, coll: Seq<char>)
    ensures
        !(seq!['.', 'i', 'n', 'd', 'e', 'x', '.', 'j', 's', 'o', 'n'].is_suffix_of(file.file@))
            ==> loaded_file(file) is None,
        file.file@ == coll + seq!['.', 'i', 'n', 'd', 'e', 'x', '.', 'j', 's', 'o', 'n']
            ==> match file.content {
            None => loaded_file(file) is None,
            Some(content) => match named_fields(content@) {
                None => loaded_file(file) is None,
                Some(fields) => loaded_file(file) == Some(
                    ((file.db@, coll), loaded_indexes(fields, file.data)),
                ),
            },
        },
{
    let suffix = ".index.json"@;
    law_files_are_called_like_their_collection(Seq::empty());
    law_files_are_called_like_their_collection(coll);
    assert(Seq::<char>::empty() + suffix =~= suffix);
    assert(suffix =~= seq!['.', 'i', 'n', 'd', 'e', 'x', '.', 'j', 's', 'o', 'n']) by {
        reveal_strlit(".index.json");
    }
    if file.file@ == coll + suffix {
        assert(suffix =~= file.file@.skip(coll.len() as int));
        assert(file.file@.take(file.file@.len() - suffix.len()) =~= coll);
    }
}

/// Sidecars are loaded one after the other: each sets the indexes of its collection, and leaves
/// those of all others; a file that is no sidecar changes nothing.
pub proof fn law_sidecars_are_loaded_one_by_one(files: Seq<DirFile>, file: DirFile)
    ensures
        loaded_files(Seq::empty()) == Map::<Place, CollView>::empty(),
        match loaded_file(file) {
            Some((place, index)) => loaded_files(files.push(file)) == loaded_files(files).insert(
                place,
                index,
            ),
            None => loaded_files(files.push(file)) == loaded_files(files),
        },
{
    assert(files.push(file).drop_last() =~= files);
}

} // verus!

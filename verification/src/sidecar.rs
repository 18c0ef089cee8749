//! Sidecar files, which say what fields of a collection are indexed.

use crate::catalog::{lists_names, sidecar_file, FilePath};
use crate::index::{fields_of, insert_field, new_coll_indexes, CollIndexes, CollView, Place};
use crate::json::{
    as_array, as_str, from_str, get, json_of, json_parse, json_text, jsons, map_insert, map_new,
    member, object_value, plain, raw_marker, strings_value, to_string, Json,
};
use crate::log::{all_text, build_field_index, field_index, log_records};
use crate::text::{strip_suffix, text_of, texts};
use serde_json::Value;
use vstd::prelude::*;

verus! {

/// What came of reading a file.
pub enum FileRead {
    /// There is no such file.
    Missing,
    /// The file could not be read.
    Failed,
    /// What the file holds.
    Bytes(Vec<u8>),
}

/// A file in the directory of a database, as it was found when the engine started.
pub struct DirFile {
    /// The database.
    pub db: String,
    /// The name of the file.
    pub file: String,
    /// The text of the file, where it could be read.
    pub content: Option<String>,
    /// The log of the collection that the file belongs to.
    pub data: FileRead,
}

/// The strings in a JSON array.
pub open spec fn strings_in(list: Seq<Json>) -> Seq<Seq<char>>
    decreases list.len(),
{
    if list.len() == 0 {
        seq![]
    } else {
        let before = strings_in(list.drop_last());
        match list.last() {
            Json::Str(s) => before.push(s),
            _ => before,
        }
    }
}

/// The fields that a value names.
pub open spec fn fields_in(sidecar: Json) -> Option<Seq<Seq<char>>> {
    match member(sidecar, "fields"@) {
        Some(Json::Array(list)) => Some(strings_in(list)),
        _ => None,
    }
}

/// The fields that the text of a sidecar names.
pub open spec fn named_fields(content: Seq<char>) -> Option<Seq<Seq<char>>> {
    match json_parse(content) {
        Some(j) => fields_in(j),
        None => None,
    }
}

/// The value that the text of a sidecar stands for.
pub open spec fn sidecar_json(fields: Seq<Seq<char>>) -> Json {
    Json::Object(
        Map::<Seq<char>, Json>::empty().insert(
            "fields"@,
            Json::Array(fields.map_values(|f: Seq<char>| Json::Str(f))),
        ),
    )
}

/// The log that was read, where it can be indexed; a missing log is empty.
pub open spec fn indexable(data: FileRead) -> Option<Seq<u8>> {
    match data {
        FileRead::Missing => Some(seq![]),
        FileRead::Failed => None,
        FileRead::Bytes(bytes) => if all_text(log_records(bytes@)) {
            Some(bytes@)
        } else {
            None
        },
    }
}

/// The indexes of the named fields over what was read of the log. Where it cannot be indexed,
/// there are none.
pub open spec fn loaded_indexes(fields: Seq<Seq<char>>, data: FileRead) -> CollView {
    match indexable(data) {
        Some(log) => Map::new(
            |f: Seq<char>| fields.contains(f),
            |f: Seq<char>| field_index(log_records(log), f),
        ),
        None => Map::empty(),
    }
}

/// The collection and its indexes that a file of a database stands for; most stand for none.
pub open spec fn loaded_file(file: DirFile) -> Option<(Place, CollView)> {
    if !".index.json"@.is_suffix_of(file.file@) {
        None
    } else {
        let coll = file.file@.take(file.file@.len() - ".index.json"@.len());
        match file.content {
            None => None,
            Some(content) => match named_fields(content@) {
                None => None,
                Some(fields) => Some(((file.db@, coll), loaded_indexes(fields, file.data))),
            },
        }
    }
}

/// The indexes of all collections that the files stand for; of two for one collection the later
/// counts.
pub open spec fn loaded_files(files: Seq<DirFile>) -> Map<Place, CollView>
    decreases files.len(),
{
    if files.len() == 0 {
        Map::empty()
    } else {
        let before = loaded_files(files.drop_last());
        match loaded_file(files.last()) {
            Some((place, index)) => before.insert(place, index),
            None => before,
        }
    }
}

/// What is to become of the sidecar of a collection.
pub struct SidecarUpdate {
    pub path: FilePath,
    /// The text that it is to hold; without one it is to be removed.
    pub content: Option<String>,
}

/// `content` is the text of a sidecar that names the fields, sorted, and nothing else; there is no
/// text where there are no fields.
pub open spec fn says_fields(content: Option<Seq<char>>, fields: Set<Seq<char>>) -> bool {
    match content {
        None => fields == Set::<Seq<char>>::empty(),
        Some(text) => {
            &&& fields != Set::<Seq<char>>::empty()
            &&& exists|list: Seq<Seq<char>>|
                {
                    &&& #[trigger] lists_names(list, fields)
                    &&& text == json_text(sidecar_json(list))
                    &&& named_fields(text) == Some(list)
                }
        },
    }
}

/// The update makes the sidecar of the collection name the fields; it is removed where there are
/// none.
pub open spec fn names_fields(
    update: SidecarUpdate,
    place: Place,
    fields: Set<Seq<char>>,
) -> bool {
    &&& update.path.dir@ == place.0
    &&& update.path.file@ == sidecar_file(place.1)
    &&& says_fields(text_of(update.content), fields)
}

/// Strings in JSON are found again.
pub proof fn lemma_strings_in(fields: Seq<Seq<char>>)
    ensures
        strings_in(fields.map_values(|f: Seq<char>| Json::Str(f))) == fields,
    decreases fields.len(),
{
    let list = fields.map_values(|f: Seq<char>| Json::Str(f));
    if fields.len() > 0 {
        lemma_strings_in(fields.drop_last());
        assert(list.drop_last() =~= fields.drop_last().map_values(|f: Seq<char>| Json::Str(f)));
        assert(fields =~= fields.drop_last().push(fields.last()));
    } else {
        assert(fields =~= seq![]);
    }
}

/// Reads the text of a sidecar.
pub fn sidecar_fields(content: &str) -> (res: Option<Vec<String>>)
    ensures
        match res {
            Some(fields) => named_fields(content@) == Some(texts(fields@)),
            None => named_fields(content@) is None,
        },
{
    match from_str(content) {
        Ok(sidecar) => value_fields(&sidecar),
        Err(_) => None,
    }
}

/// The fields that a value names.
pub fn value_fields(sidecar: &Value) -> (res: Option<Vec<String>>)
    ensures
        match res {
            Some(fields) => fields_in(json_of(*sidecar)) == Some(texts(fields@)),
            None => fields_in(json_of(*sidecar)) is None,
        },
{
    let list = match get(sidecar, "fields") {
        Some(v) => match as_array(v) {
            Some(list) => list,
            None => {
                return None;
            },
        },
        None => {
            return None;
        },
    };
    let mut fields: Vec<String> = Vec::new();
    let mut i: usize = 0;
    assert(texts(fields@) =~= seq![]);
    while i < list.len()
        invariant
            i <= list@.len(),
            texts(fields@) == strings_in(jsons(list@).take(i as int)),
        decreases list@.len() - i,
    {
        proof {
            assert(jsons(list@).take(i + 1).drop_last() =~= jsons(list@).take(i as int));
            assert(jsons(list@).take(i + 1).last() == json_of(list@[i as int]));
        }
        let ghost before = texts(fields@);
        match as_str(&list[i]) {
            Some(s) => {
                fields.push(s.to_owned());
                assert(texts(fields@) =~= before.push(s@));
            },
            None => {},
        }
        i = i + 1;
    }
    assert(jsons(list@).take(list@.len() as int) =~= jsons(list@));
    Some(fields)
}

/// The text of a sidecar that names the fields.
pub(crate) fn sidecar_text(fields: Vec<String>) -> (res: String)
    ensures
        res@ == json_text(sidecar_json(texts(fields@))),
        named_fields(res@) == Some(texts(fields@)),
{
    let ghost names = texts(fields@);
    let ghost list = names.map_values(|f: Seq<char>| Json::Str(f));
    let array = strings_value(fields);
    assert(json_of(array) == Json::Array(list)) by {
        assert(fields@.map_values(|s: String| Json::Str(s@)) =~= list);
    }
    let mut members = map_new();
    map_insert(&mut members, "fields".to_owned(), array);
    let value = object_value(members);
    proof {
        let j = json_of(value);
        assert(j == sidecar_json(names));
        assert(plain(Json::Array(list), 126)) by {
            assert forall|i: int| 0 <= i < list.len() implies plain(#[trigger] list[i], 125) by {}
        }
        reveal_strlit("fields");
        reveal_strlit("$serde_json::private::RawValue");
        assert("fields"@.len() != raw_marker().len());
        assert(plain(j, 127));
        lemma_strings_in(names);
        assert(member(j, "fields"@) == Some(Json::Array(list)));
    }
    match to_string(&value) {
        Ok(text) => text,
        Err(_) => String::new(),
    }
}

/// Builds the indexes of the named fields.
fn load_indexes(fields: &Vec<String>, data: &FileRead) -> (res: CollIndexes)
    ensures
        fields_of(res) == loaded_indexes(texts(fields@), *data),
{
    let mut index = new_coll_indexes();
    let mut i: usize = 0;
    assert(fields_of(index) =~= loaded_indexes(texts(fields@).take(0), *data));
    while i < fields.len()
        invariant
            i <= fields@.len(),
            fields_of(index) == loaded_indexes(texts(fields@).take(i as int), *data),
        decreases fields@.len() - i,
    {
        let ghost before = texts(fields@).take(i as int);
        let ghost after = texts(fields@).take(i + 1);
        let ghost old_view = fields_of(index);
        let built = match data {
            FileRead::Missing => match build_field_index(None, fields[i].as_str()) {
                Ok(built) => Some(built),
                Err(_) => None,
            },
            FileRead::Failed => None,
            FileRead::Bytes(bytes) => match build_field_index(
                Some(bytes.as_slice()),
                fields[i].as_str(),
            ) {
                Ok(built) => Some(built),
                Err(_) => None,
            },
        };
        match built {
            Some(built) => {
                insert_field(&mut index, fields[i].clone(), built);
            },
            None => {},
        }
        proof {
            assert(after =~= before.push(fields@[i as int]@));
            assert forall|f: Seq<char>| after.contains(f) <==> before.contains(f) || f
                == fields@[i as int]@ by {
                if before.contains(f) {
                    let k = choose|k: int| 0 <= k < before.len() && before[k] == f;
                    assert(after[k] == f);
                }
                if f == fields@[i as int]@ {
                    assert(after[i as int] == f);
                }
            }
            assert(fields_of(index) =~= loaded_indexes(after, *data));
        }
        i = i + 1;
    }
    assert(texts(fields@).take(fields@.len() as int) =~= texts(fields@));
    index
}

/// The collection and its indexes that a file of a database stands for.
pub(crate) fn load_file(file: &DirFile) -> (res: Option<(String, CollIndexes)>)
    ensures
        match res {
            Some((coll, index)) => loaded_file(*file) == Some(
                ((file.db@, coll@), fields_of(index)),
            ),
            None => loaded_file(*file) is None,
        },
{
    let coll = match strip_suffix(file.file.as_str(), ".index.json") {
        Some(coll) => coll,
        None => {
            return None;
        },
    };
    proof {
        assert(".index.json"@ =~= file.file@.skip(coll@.len() as int));
        assert(coll@ =~= file.file@.take(file.file@.len() - ".index.json"@.len()));
    }
    match &file.content {
        None => None,
        Some(content) => match sidecar_fields(content.as_str()) {
            None => None,
            Some(fields) => Some((coll, load_indexes(&fields, &file.data))),
        },
    }
}

} // verus!

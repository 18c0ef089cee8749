//! The files of databases and collections: what they are called and what they stand for.

use crate::error::EngineError;
use crate::name::{name_char, valid_name};
use crate::text::{sort_strings, strip_suffix, texts, texts_ascend};
use vstd::prelude::*;

verus! {

/// A file in the directory of a database.
pub struct FilePath {
    pub dir: String,
    pub file: String,
}

/// An entry of the data directory.
pub struct DirEntry {
    pub name: String,
    pub is_dir: bool,
}

/// A file that goes with its database.
pub struct FileRemoval {
    pub file: String,
    /// The file is the log of a collection: that it cannot be removed is an error.
    pub is_log: bool,
}

/// What is to be removed with a collection: the sidecar, which goes first, and the log.
pub struct CollectionRemoval {
    pub sidecar: FilePath,
    pub log: FilePath,
}

/// What came of removing a file.
pub enum Removed {
    /// The file is gone.
    Gone,
    /// There was no such file.
    Missing,
    /// The file could not be removed.
    Failed(std::io::Error),
}

/// Whether a file that was to be removed was there.
pub fn was_there(removed: Removed) -> (res: Result<bool, EngineError>)
    ensures
        res == match removed {
            Removed::Gone => Ok::<bool, EngineError>(true),
            Removed::Missing => Ok::<bool, EngineError>(false),
            Removed::Failed(e) => Err::<bool, EngineError>(EngineError::Io(e)),
        },
{
    match removed {
        Removed::Gone => Ok(true),
        Removed::Missing => Ok(false),
        Removed::Failed(e) => Err(EngineError::Io(e)),
    }
}

/// What is to be removed with a database.
pub struct DatabaseRemoval {
    pub files: Vec<FileRemoval>,
    /// How many of the files are logs.
    pub count: usize,
}

/// The name of the file that holds the log of a collection.
pub open spec fn log_file(coll: Seq<char>) -> Seq<char> {
    coll + ".ndjson"@
}

/// The name of the file that says what fields of a collection are indexed.
pub open spec fn sidecar_file(coll: Seq<char>) -> Seq<char> {
    coll + ".index.json"@
}

/// `list` names the members of `set`, each once, in the order of their bytes.
pub open spec fn lists_names(list: Seq<Seq<char>>, set: Set<Seq<char>>) -> bool {
    &&& list.no_duplicates()
    &&& forall|name: Seq<char>| list.contains(name) <==> set.contains(name)
    &&& texts_ascend(list)
}

/// `list` holds the same texts as `source`, in the order of their bytes.
pub open spec fn sorts(list: Seq<Seq<char>>, source: Seq<Seq<char>>) -> bool {
    list.to_multiset() == source.to_multiset() && texts_ascend(list)
}

/// The names of the directories.
pub open spec fn directories(entries: Seq<DirEntry>) -> Seq<Seq<char>>
    decreases entries.len(),
{
    if entries.len() == 0 {
        seq![]
    } else if entries.last().is_dir {
        directories(entries.drop_last()).push(entries.last().name@)
    } else {
        directories(entries.drop_last())
    }
}

/// What comes before `suffix` in the names that end with it.
pub open spec fn stems(names: Seq<Seq<char>>, suffix: Seq<char>) -> Seq<Seq<char>>
    decreases names.len(),
{
    if names.len() == 0 {
        seq![]
    } else {
        let before = stems(names.drop_last(), suffix);
        let name = names.last();
        if suffix.is_suffix_of(name) {
            before.push(name.take(name.len() - suffix.len()))
        } else {
            before
        }
    }
}

/// The files that go with their database, and whether each is a log: the logs and the sidecars.
pub open spec fn removed(names: Seq<Seq<char>>) -> Seq<(Seq<char>, bool)>
    decreases names.len(),
{
    if names.len() == 0 {
        seq![]
    } else {
        let before = removed(names.drop_last());
        let name = names.last();
        if ".ndjson"@.is_suffix_of(name) {
            before.push((name, true))
        } else if ".index.json"@.is_suffix_of(name) {
            before.push((name, false))
        } else {
            before
        }
    }
}

/// The files in a list of removals.
pub open spec fn removals(list: Seq<FileRemoval>) -> Seq<(Seq<char>, bool)> {
    list.map_values(|r: FileRemoval| (r.file@, r.is_log))
}

/// What comes before a suffix.
proof fn lemma_stem(s: Seq<char>, stem: Seq<char>, suffix: Seq<char>)
    requires
        s == stem + suffix,
    ensures
        suffix.is_suffix_of(s),
        stem == s.take(s.len() - suffix.len()),
{
    assert(suffix =~= s.skip(stem.len() as int));
    assert(stem =~= s.take(s.len() - suffix.len()));
}

/// Appends to a text.
fn with_suffix(text: &str, suffix: &str) -> (res: String)
    ensures
        res@ == text@ + suffix@,
{
    let mut out = text.to_owned();
    out.append(suffix);
    out
}

/// Where the log of a collection is.
pub(crate) fn log_path(db: &str, coll: &str) -> (res: FilePath)
    ensures
        res.dir@ == db@,
        res.file@ == log_file(coll@),
{
    FilePath { dir: db.to_owned(), file: with_suffix(coll, ".ndjson") }
}

/// Where the sidecar of a collection is.
pub(crate) fn sidecar_path(db: &str, coll: &str) -> (res: FilePath)
    ensures
        res.dir@ == db@,
        res.file@ == sidecar_file(coll@),
{
    FilePath { dir: db.to_owned(), file: with_suffix(coll, ".index.json") }
}

/// Sorts names of which none occurs twice.
pub(crate) fn sort_names(names: Vec<String>) -> (res: Vec<String>)
    requires
        texts(names@).no_duplicates(),
    ensures
        lists_names(texts(res@), texts(names@).to_set()),
{
    let mut list = names;
    sort_strings(&mut list);
    proof {
        let before = texts(names@);
        let after = texts(list@);
        before.lemma_multiset_has_no_duplicates();
        after.lemma_multiset_has_no_duplicates_conv();
        assert forall|name: Seq<char>| after.contains(name) <==> before.to_set().contains(name) by {
            vstd::seq_lib::to_multiset_contains(after, name);
            vstd::seq_lib::to_multiset_contains(before, name);
        }
    }
    list
}

/// The names of the directories, sorted.
pub(crate) fn sorted_directories(entries: &Vec<DirEntry>) -> (res: Vec<String>)
    ensures
        sorts(texts(res@), directories(entries@)),
{
    let mut out: Vec<String> = Vec::new();
    let mut i: usize = 0;
    assert(entries@.take(0) =~= seq![]);
    assert(texts(out@) =~= seq![]);
    while i < entries.len()
        invariant
            i <= entries@.len(),
            texts(out@) == directories(entries@.take(i as int)),
        decreases entries@.len() - i,
    {
        proof {
            assert(entries@.take(i + 1).drop_last() =~= entries@.take(i as int));
        }
        let ghost before = texts(out@);
        if entries[i].is_dir {
            out.push(entries[i].name.clone());
            assert(texts(out@) =~= before.push(entries@[i as int].name@));
        }
        i = i + 1;
    }
    assert(entries@.take(entries@.len() as int) =~= entries@);
    sort_strings(&mut out);
    out
}

/// The stems of the names that end with a suffix, sorted.
pub(crate) fn sorted_stems(names: &Vec<String>, suffix: &str) -> (res: Vec<String>)
    ensures
        sorts(texts(res@), stems(texts(names@), suffix@)),
{
    let ghost all = texts(names@);
    let mut out: Vec<String> = Vec::new();
    let mut i: usize = 0;
    assert(all.take(0) =~= seq![]);
    assert(texts(out@) =~= seq![]);
    while i < names.len()
        invariant
            i <= names@.len(),
            all == texts(names@),
            texts(out@) == stems(all.take(i as int), suffix@),
        decreases names@.len() - i,
    {
        proof {
            assert(all.take(i + 1).drop_last() =~= all.take(i as int));
            assert(all.take(i + 1).last() == names@[i as int]@);
        }
        let ghost before = texts(out@);
        match strip_suffix(names[i].as_str(), suffix) {
            Some(stem) => {
                proof {
                    lemma_stem(names@[i as int]@, stem@, suffix@);
                }
                out.push(stem);
                assert(texts(out@) =~= before.push(stem@));
            },
            None => {},
        }
        i = i + 1;
    }
    assert(all.take(all.len() as int) =~= all);
    sort_strings(&mut out);
    out
}

/// The files that go with their database, and how many of them are logs.
pub(crate) fn files_to_remove(names: &Vec<String>) -> (res: (Vec<FileRemoval>, usize))
    ensures
        removals(res.0@) == removed(texts(names@)),
        res.1 == stems(texts(names@), ".ndjson"@).len(),
{
    let ghost all = texts(names@);
    let mut out: Vec<FileRemoval> = Vec::new();
    let mut count: usize = 0;
    let mut i: usize = 0;
    assert(all.take(0) =~= seq![]);
    assert(removals(out@) =~= seq![]);
    while i < names.len()
        invariant
            i <= names@.len(),
            all == texts(names@),
            removals(out@) == removed(all.take(i as int)),
            count == stems(all.take(i as int), ".ndjson"@).len(),
            count <= i,
        decreases names@.len() - i,
    {
        proof {
            assert(all.take(i + 1).drop_last() =~= all.take(i as int));
            assert(all.take(i + 1).last() == names@[i as int]@);
        }
        let ghost before = removals(out@);
        let name = &names[i];
        match strip_suffix(name.as_str(), ".ndjson") {
            Some(stem) => {
                proof {
                    lemma_stem(name@, stem@, ".ndjson"@);
                }
                out.push(FileRemoval { file: name.clone(), is_log: true });
                count = count + 1;
                assert(removals(out@) =~= before.push((name@, true)));
            },
            None => match strip_suffix(name.as_str(), ".index.json") {
                Some(stem) => {
                    proof {
                        lemma_stem(name@, stem@, ".index.json"@);
                    }
                    out.push(FileRemoval { file: name.clone(), is_log: false });
                    assert(removals(out@) =~= before.push((name@, false)));
                },
                None => {},
            },
        }
        i = i + 1;
    }
    assert(all.take(all.len() as int) =~= all);
    (out, count)
}

/// The collection whose sidecar has the name, where it is the name of one.
pub fn sidecar_collection(file: &str) -> (res: Option<String>)
    ensures
        match res {
            Some(coll) => file@ == sidecar_file(coll@),
            None => forall|coll: Seq<char>| file@ != #[trigger] sidecar_file(coll),
        },
{
    let res = strip_suffix(file, ".index.json");
    proof {
        if res is None {
            assert forall|coll: Seq<char>| file@ != #[trigger] sidecar_file(coll) by {
                if file@ == sidecar_file(coll) {
                    lemma_stem(file@, coll, ".index.json"@);
                }
            }
        }
    }
    res
}

/// A name holds neither a slash nor a dot, so that the path made of names stays inside the
/// directory of the data.
pub proof fn law_names_stay_inside(name: Seq<char>)
    requires
        valid_name(name),
    ensures
        !name.contains('/'),
        !name.contains('\\'),
        !name.contains('.'),
{
    assert forall|i: int| 0 <= i < name.len() implies name[i] != '/' && name[i] != '\\' && name[i]
        != '.' by {
        assert(name_char(name[i]));
    }
}

/// Each collection has files of its own: no other collection has a log or a sidecar of the same
/// name, and no log is called like a sidecar.
pub proof fn law_files_are_distinct(a: Seq<char>, b: Seq<char>)
    ensures
        log_file(a) == log_file(b) <==> a == b,
        sidecar_file(a) == sidecar_file(b) <==> a == b,
        log_file(a) != sidecar_file(b),
{
    reveal_strlit(".ndjson");
    reveal_strlit(".index.json");
    assert(log_file(a).len() == a.len() + 7);
    assert(log_file(b).len() == b.len() + 7);
    assert(sidecar_file(a).len() == a.len() + 11);
    assert(sidecar_file(b).len() == b.len() + 11);
    if log_file(a) == log_file(b) {
        assert(log_file(a).take(a.len() as int) =~= a);
        assert(log_file(b).take(a.len() as int) =~= b);
    }
    if sidecar_file(a) == sidecar_file(b) {
        assert(sidecar_file(a).take(a.len() as int) =~= a);
        assert(sidecar_file(b).take(a.len() as int) =~= b);
    }
    if log_file(a) == sidecar_file(b) {
        assert(log_file(a)[a.len() as int + 2] == 'd');
        assert(sidecar_file(b)[b.len() as int + 6] == '.');
    }
}

/// A collection is listed where its log is among the files.
pub proof fn law_logs_are_listed(names: Seq<Seq<char>>, coll: Seq<char>)
    ensures
        stems(names, ".ndjson"@).contains(coll) <==> names.contains(log_file(coll)),
    decreases names.len(),
{
    let suffix = ".ndjson"@;
    let all = stems(names, suffix);
    if names.len() > 0 {
        let rest = names.drop_last();
        let before = stems(rest, suffix);
        let name = names.last();
        law_logs_are_listed(rest, coll);
        assert(names =~= rest.push(name));
        if suffix.is_suffix_of(name) {
            let stem = name.take(name.len() - suffix.len());
            assert(name =~= stem + suffix);
            law_files_are_distinct(stem, coll);
            assert(all =~= before.push(stem));
        } else if name == log_file(coll) {
            lemma_stem(name, coll, suffix);
        }
        if names.contains(log_file(coll)) {
            let k = choose|k: int| 0 <= k < names.len() && names[k] == log_file(coll);
            if k < rest.len() {
                assert(rest[k] == log_file(coll));
                let m = choose|m: int| 0 <= m < before.len() && before[m] == coll;
                assert(all[m] == coll);
            } else {
                assert(all[before.len() as int] == coll);
            }
        }
        if all.contains(coll) {
            let m = choose|m: int| 0 <= m < all.len() && all[m] == coll;
            if m < before.len() {
                assert(before[m] == coll);
                let k = choose|k: int| 0 <= k < rest.len() && rest[k] == log_file(coll);
                assert(names[k] == log_file(coll));
            } else {
                assert(names[rest.len() as int] == log_file(coll));
            }
        }
    }
}

} // verus!

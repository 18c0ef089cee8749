//! What is on the disk: that it tells a new engine all that the last one knew of indexes.

use crate::catalog::{law_logs_are_listed, lists_names, log_file, sidecar_file, stems};
use crate::guarantees::{law_each_sidecar_is_loaded, same_at, stored_state};
use crate::index::{CollView, Place};
use crate::insertion::{Event, Insertion, Stage};
use crate::json::{json_text, Json};
use crate::log::{all_text, field_index, filled, log_records};
use crate::reading::index_matches;
use crate::sidecar::{
    loaded_file, loaded_files, loaded_indexes, named_fields, says_fields, sidecar_json, DirFile,
    FileRead,
};
use crate::state::{
    first_stage, index_at, indexed_fields, next_state, with_index, without_collection,
    without_database, without_index, State,
};
use crate::text::text_of;
use crate::writing::{
    all_compact, all_listed_alike, complete, index_after_all, law_a_batch_adds_its_lines,
    law_indexes_follow_a_batch, lemma_lines_start_with_ascii, lemma_log_stays_no_text,
    lemma_same_fields, lemma_stored_records_are_text, lines_of, stored_records,
};
use vstd::prelude::*;

verus! {

/// What the files of a store hold.
#[verifier::ext_equal]
pub struct Disk {
    /// The log of each collection that has one.
    pub logs: Map<Place, Seq<u8>>,
    /// The text of each sidecar.
    pub sidecars: Map<Place, Seq<char>>,
}

/// An engine and its files.
#[verifier::ext_equal]
pub struct Store {
    pub state: State,
    pub disk: Disk,
}

/// A call, with what it is about.
pub enum Call {
    Insert(Insertion),
    CreateIndex(Place, Seq<char>),
    DropIndex(Place, Seq<char>),
    DropCollection(Place),
    DropDatabase(Seq<char>),
    /// A read, or a call that was refused.
    Other,
}

/// What the log of a collection holds; a missing log holds nothing.
pub open spec fn log_at(disk: Disk, place: Place) -> Seq<u8> {
    if disk.logs.contains_key(place) {
        disk.logs[place]
    } else {
        seq![]
    }
}

/// The text of the sidecar of a collection, where it has one.
pub open spec fn sidecar_at(disk: Disk, place: Place) -> Option<Seq<char>> {
    if disk.sidecars.contains_key(place) {
        Some(disk.sidecars[place])
    } else {
        None
    }
}

/// The indexes that a collection has by its files.
pub open spec fn reloaded(disk: Disk, place: Place) -> CollView {
    let lines = log_records(log_at(disk, place));
    match sidecar_at(disk, place) {
        Some(text) => match named_fields(text) {
            Some(fields) => if all_text(lines) {
                Map::new(
                    |f: Seq<char>| fields.contains(f),
                    |f: Seq<char>| field_index(lines, f),
                )
            } else {
                Map::empty()
            },
            None => Map::empty(),
        },
        None => Map::empty(),
    }
}

/// The indexes that an engine holds of a collection.
pub open spec fn held(state: State, place: Place) -> CollView {
    match index_at(state, place) {
        Some(index) => index,
        None => Map::empty(),
    }
}

/// The files of a collection tell what the engine knows of it.
pub open spec fn saved_at(store: Store, place: Place) -> bool {
    &&& store.state.lengths.contains_key(place) ==> store.state.lengths[place] == log_at(
        store.disk,
        place,
    ).len()
    &&& held(store.state, place) == reloaded(store.disk, place)
}

/// The files tell what the engine knows.
pub open spec fn saved(store: Store) -> bool {
    forall|place: Place| #[trigger] saved_at(store, place)
}

/// What the engine knows once an insertion has made all its steps on a log.
pub open spec fn inserted(state: State, ins: Insertion, log: Seq<u8>) -> State {
    let end = log.len() as u64;
    match ins.stage {
        Stage::Done => state,
        Stage::Open => stored_state(
            next_state(state, ins, Event::Opened(end)),
            ins.at(Stage::Append(end)),
        ),
        _ => stored_state(state, ins.at(Stage::Append(end))),
    }
}

/// The sidecar of a collection was written anew, to name the fields, or was removed; no other file
/// was touched.
pub open spec fn rewritten(
    before: Disk,
    after: Disk,
    place: Place,
    fields: Set<Seq<char>>,
) -> bool {
    &&& after.logs == before.logs
    &&& after.sidecars.remove(place) == before.sidecars.remove(place)
    &&& says_fields(sidecar_at(after, place), fields)
}

/// What a call makes of the engine and its files, where no file fails. Where documents go into a
/// collection with an indexed field, its log ends in a newline, and the indexed fields have the same
/// text in the documents as in their lines.
pub open spec fn made(call: Call, before: Store, after: Store) -> bool {
    match call {
        Call::Insert(ins) => {
            let log = log_at(before.disk, ins.place());
            let docs = ins.documents();
            &&& ins.stage == first_stage(before.state, ins.place(), docs)
            &&& log.len() + lines_of(docs).len() <= u64::MAX
            &&& all_compact(docs)
            &&& indexed_fields(before.state, ins.place()) != Set::<Seq<char>>::empty() ==> complete(
                log,
            ) && all_listed_alike(docs, indexed_fields(before.state, ins.place()))
            &&& after.state == inserted(before.state, ins, log)
            &&& after.disk == if docs.len() == 0 {
                before.disk
            } else {
                Disk {
                    logs: before.disk.logs.insert(ins.place(), log + lines_of(docs)),
                    ..before.disk
                }
            }
        },
        Call::CreateIndex(place, field) => {
            let log = log_at(before.disk, place);
            let fields = indexed_fields(before.state, place);
            if fields.contains(field) || !all_text(log_records(log)) {
                after == before
            } else {
                &&& after.state == with_index(before.state, place, field, log)
                &&& rewritten(before.disk, after.disk, place, fields.insert(field))
            }
        },
        Call::DropIndex(place, field) => {
            let fields = indexed_fields(before.state, place);
            &&& after.state == without_index(before.state, place, field)
            &&& rewritten(before.disk, after.disk, place, fields.remove(field))
        },
        Call::DropCollection(place) => {
            &&& after.state == without_collection(before.state, place)
            &&& after.disk == (Disk {
                logs: before.disk.logs.remove(place),
                sidecars: before.disk.sidecars.remove(place),
            })
        },
        Call::DropDatabase(db) => {
            let gone = Set::new(|place: Place| place.0 == db);
            ||| after == before
            ||| {
                &&& after.state == without_database(before.state, db)
                &&& after.disk == (Disk {
                    logs: before.disk.logs.remove_keys(gone),
                    sidecars: before.disk.sidecars.remove_keys(gone),
                })
            }
        },
        Call::Other => after == before,
    }
}

/// The file is the sidecar of the collection.
pub open spec fn is_sidecar_of(file: DirFile, place: Place) -> bool {
    file.db@ == place.0 && file.file@ == sidecar_file(place.1)
}

/// The file was found as it is on the disk, with the log of its collection.
pub open spec fn found_on(file: DirFile, disk: Disk) -> bool {
    forall|place: Place| #[trigger]
        is_sidecar_of(file, place) ==> {
            &&& text_of(file.content) == sidecar_at(disk, place)
            &&& disk.sidecars.contains_key(place)
            &&& match file.data {
                FileRead::Missing => !disk.logs.contains_key(place),
                FileRead::Failed => false,
                FileRead::Bytes(bytes) => disk.logs.contains_key(place) && disk.logs[place]
                    == bytes@,
            }
        }
}

/// The files are those on the disk, each once.
pub open spec fn lists_disk(files: Seq<DirFile>, disk: Disk) -> bool {
    &&& forall|i: int| 0 <= i < files.len() ==> found_on(#[trigger] files[i], disk)
    &&& forall|place: Place| #[trigger]
        disk.sidecars.contains_key(place) ==> exists|i: int|
            0 <= i < files.len() && is_sidecar_of(#[trigger] files[i], place)
    &&& forall|i: int, j: int|
        0 <= i < j < files.len() ==> !((#[trigger] files[i]).db@ == (#[trigger] files[j]).db@
            && files[i].file@ == files[j].file@)
}

/// The names of files are those in the directory of a database.
pub open spec fn lists_directory(names: Seq<Seq<char>>, disk: Disk, db: Seq<char>) -> bool {
    forall|coll: Seq<char>| #[trigger]
        names.contains(log_file(coll)) <==> disk.logs.contains_key((db, coll))
}

/// A file that gives a collection indexes is its sidecar.
proof fn lemma_loaded_is_sidecar(file: DirFile)
    requires
        loaded_file(file) is Some,
    ensures
        is_sidecar_of(file, loaded_file(file).unwrap().0),
{
    let suffix = ".index.json"@;
    let name = file.file@;
    assert(name =~= name.take(name.len() - suffix.len()) + suffix);
}

/// Only a file gives a collection indexes.
proof fn lemma_loaded_by_some_file(files: Seq<DirFile>, place: Place) -> (i: int)
    requires
        loaded_files(files).contains_key(place),
    ensures
        0 <= i < files.len(),
        loaded_file(files[i]) matches Some(loaded) && loaded.0 == place,
    decreases files.len(),
{
    let last = loaded_file(files.last());
    if last matches Some(loaded) && loaded.0 == place {
        files.len() - 1
    } else {
        let i = lemma_loaded_by_some_file(files.drop_last(), place);
        assert(files[i] == files.drop_last()[i]);
        i
    }
}

/// A new engine gives each collection the indexes that its files tell of.
pub proof fn law_a_new_engine_reloads(files: Seq<DirFile>, disk: Disk, state: State, place: Place)
    requires
        lists_disk(files, disk),
        state.indexes == loaded_files(files),
    ensures
        held(state, place) == reloaded(disk, place),
{
    let all = loaded_files(files);
    if all.contains_key(place) {
        let i = lemma_loaded_by_some_file(files, place);
        lemma_loaded_is_sidecar(files[i]);
        assert(found_on(files[i], disk));
        assert(is_sidecar_of(files[i], place));
        assert forall|j: int| i < j < files.len() implies (loaded_file(
            #[trigger] files[j],
        ) matches Some(later) ==> later.0 != place) by {
            if loaded_file(files[j]) is Some {
                lemma_loaded_is_sidecar(files[j]);
                assert(files[i].db@ == place.0);
            }
        }
        law_each_sidecar_is_loaded(files, i);
        assert(held(state, place) =~= reloaded(disk, place)) by {
            let fields = named_fields(disk.sidecars[place]).unwrap();
            assert(loaded_file(files[i]).unwrap().1 == loaded_indexes(fields, files[i].data));
            assert(log_records(Seq::<u8>::empty()) =~= seq![]);
        }
    } else if disk.sidecars.contains_key(place) {
        let i = choose|i: int| 0 <= i < files.len() && is_sidecar_of(#[trigger] files[i], place);
        assert(found_on(files[i], disk));
        let suffix = ".index.json"@;
        let name = files[i].file@;
        assert(suffix =~= name.skip(place.1.len() as int));
        assert(name.take(name.len() - suffix.len()) =~= place.1);
        if named_fields(disk.sidecars[place]) is Some {
            assert(loaded_file(files[i]).unwrap().0 == place);
            assert forall|j: int| i < j < files.len() implies (loaded_file(
                #[trigger] files[j],
            ) matches Some(later) ==> later.0 != place) by {
                if loaded_file(files[j]) is Some {
                    lemma_loaded_is_sidecar(files[j]);
                    assert(files[i].db@ == place.0);
                }
            }
            law_each_sidecar_is_loaded(files, i);
        }
    }
}

/// The log, after an insertion, is text where it was before.
proof fn lemma_text_after(log: Seq<u8>, docs: Seq<Json>)
    requires
        all_compact(docs),
    ensures
        !all_text(log_records(log)) ==> !all_text(log_records(log + lines_of(docs))),
        complete(log) && all_text(log_records(log)) ==> all_text(
            log_records(log + lines_of(docs)),
        ),
{
    if docs.len() == 0 {
        assert(log + lines_of(docs) =~= log);
    } else {
        let lines = log_records(log);
        let more = log_records(log + lines_of(docs));
        lemma_lines_start_with_ascii(docs);
        if !all_text(lines) {
            lemma_log_stays_no_text(log, lines_of(docs), 0);
        } else if complete(log) {
            law_a_batch_adds_its_lines(log, docs);
            lemma_stored_records_are_text(docs, log.len() as int);
            let added = stored_records(docs, log.len() as int);
            assert forall|i: int| 0 <= i < more.len() implies !((
            #[trigger] more[i]).line is NotText) by {
                if i < lines.len() {
                    assert(more[i] == lines[i]);
                } else {
                    assert(more[i] == added[i - lines.len()]);
                }
            }
        }
    }
}

/// An insertion keeps its collection saved.
proof fn lemma_insert(ins: Insertion, before: Store, after: Store)
    requires
        saved_at(before, ins.place()),
        made(Call::Insert(ins), before, after),
    ensures
        saved_at(after, ins.place()),
{
    let place = ins.place();
    let docs = ins.documents();
    let log = log_at(before.disk, place);
    if docs.len() > 0 {
        let longer = log + lines_of(docs);
        let more = log_records(longer);
        assert(log_at(after.disk, place) == longer);
        let end = log.len() as u64;
        let opened = if ins.stage is Open {
            next_state(before.state, ins, Event::Opened(end))
        } else {
            before.state
        };
        let at = ins.at(Stage::Append(end));
        assert(at.place() == place);
        assert(at.documents() == docs);
        let stored = stored_state(opened, at);
        assert(after.state == stored);
        assert(opened.indexes == before.state.indexes);
        lemma_text_after(log, docs);
        let old_index = held(before.state, place);
        let new = held(after.state, place);
        assert(old_index.dom() =~= indexed_fields(before.state, place));
        if before.state.indexes.contains_key(place) {
            lemma_same_fields(before.state.indexes[place], docs, end as int);
        }
        assert(new.dom() =~= old_index.dom());
        if indexed_fields(before.state, place) == Set::<Seq<char>>::empty() {
            assert(forall|f: Seq<char>| !(#[trigger] reloaded(before.disk, place).contains_key(f)));
            assert(new =~= reloaded(after.disk, place)) by {
                assert forall|f: Seq<char>| !(#[trigger] reloaded(
                    after.disk,
                    place,
                ).contains_key(f)) by {
                    assert(!reloaded(before.disk, place).contains_key(f));
                    lemma_no_field_reloads(before.disk, after.disk, place, f);
                }
            }
        } else {
            let some = choose|f: Seq<char>| indexed_fields(before.state, place).contains(f);
            assert(exists|f: Seq<char>| indexed_fields(before.state, place).contains(f)) by {
                if forall|f: Seq<char>| !indexed_fields(before.state, place).contains(f) {
                    assert(indexed_fields(before.state, place) =~= Set::empty());
                }
            }
            assert(old_index.contains_key(some));
            assert(reloaded(before.disk, place).contains_key(some));
            assert(before.state.indexes.contains_key(place));
            assert(index_matches(before.state.indexes[place], log));
            law_indexes_follow_a_batch(before.state.indexes[place], log, docs);
            assert(new == index_after_all(before.state.indexes[place], docs, log.len() as int));
            assert(new =~= reloaded(after.disk, place));
        }
    }
}

/// Where a log was no text, or the sidecar does not name a field, the field has no index by the
/// files, whatever is appended to the log.
proof fn lemma_no_field_reloads(before: Disk, after: Disk, place: Place, f: Seq<char>)
    requires
        sidecar_at(after, place) == sidecar_at(before, place),
        !all_text(log_records(log_at(before, place))) ==> !all_text(
            log_records(log_at(after, place)),
        ),
        !reloaded(before, place).contains_key(f),
    ensures
        !reloaded(after, place).contains_key(f),
{
}

/// The indexes that files tell of, once the sidecar was written anew.
proof fn lemma_rewritten(
    before: Disk,
    after: Disk,
    place: Place,
    fields: Set<Seq<char>>,
)
    requires
        rewritten(before, after, place, fields),
        all_text(log_records(log_at(before, place))) || fields == Set::<Seq<char>>::empty(),
    ensures
        reloaded(after, place).dom() == fields,
        forall|f: Seq<char>| #[trigger]
            fields.contains(f) ==> reloaded(after, place)[f] == field_index(
                log_records(log_at(before, place)),
                f,
            ),
        forall|other: Place| other != place ==> #[trigger] reloaded(after, other) == reloaded(
            before,
            other,
        ),
        forall|other: Place| #[trigger] log_at(after, other) == log_at(before, other),
{
    assert forall|other: Place| other != place implies #[trigger] reloaded(after, other)
        == reloaded(before, other) by {
        assert(after.sidecars.remove(place).contains_key(other) == after.sidecars.contains_key(
            other,
        ));
        assert(before.sidecars.remove(place).contains_key(other) == before.sidecars.contains_key(
            other,
        ));
        if after.sidecars.contains_key(other) {
            assert(after.sidecars.remove(place)[other] == after.sidecars[other]);
            assert(before.sidecars.remove(place)[other] == before.sidecars[other]);
        }
    }
    match sidecar_at(after, place) {
        Some(text) => {
            let list = choose|list: Seq<Seq<char>>|
                {
                    &&& #[trigger] lists_names(list, fields)
                    &&& text == json_text(sidecar_json(list))
                    &&& named_fields(text) == Some(list)
                };
            assert(reloaded(after, place).dom() =~= fields);
        },
        None => {
            assert(reloaded(after, place).dom() =~= fields);
        },
    }
}

/// Every call leaves the files telling what the engine knows.
pub proof fn law_every_call_keeps_the_store_saved(call: Call, before: Store, after: Store)
    requires
        saved(before),
        made(call, before, after),
    ensures
        saved(after),
{
    assert forall|place: Place| #[trigger] saved_at(after, place) by {
        assert(saved_at(before, place));
        match call {
            Call::Insert(ins) => {
                if place == ins.place() {
                    lemma_insert(ins, before, after);
                } else {
                    lemma_insert_spares(ins, before, after, place);
                }
            },
            Call::CreateIndex(at, field) => {
                assert(saved_at(before, at));
                let log = log_at(before.disk, at);
                let fields = indexed_fields(before.state, at);
                if !(fields.contains(field) || !all_text(log_records(log))) {
                    lemma_rewritten(before.disk, after.disk, at, fields.insert(field));
                    if place == at {
                        assert(held(after.state, at) =~= reloaded(after.disk, at));
                    } else {
                        assert(held(after.state, place) == held(before.state, place));
                        assert(reloaded(after.disk, place) == reloaded(before.disk, place));
                    }
                    assert(log_at(after.disk, place) == log_at(before.disk, place));
                }
            },
            Call::DropIndex(at, field) => {
                assert(saved_at(before, at));
                let log = log_at(before.disk, at);
                let fields = indexed_fields(before.state, at);
                assert(held(before.state, at).dom() =~= fields);
                if !all_text(log_records(log)) {
                    assert(fields.remove(field) =~= Set::<Seq<char>>::empty());
                }
                lemma_rewritten(before.disk, after.disk, at, fields.remove(field));
                if place == at {
                    assert(held(after.state, at) =~= held(before.state, at).remove(field));
                    assert(held(after.state, at) =~= reloaded(after.disk, at));
                } else {
                    assert(held(after.state, place) == held(before.state, place));
                    assert(reloaded(after.disk, place) == reloaded(before.disk, place));
                }
                assert(log_at(after.disk, place) == log_at(before.disk, place));
            },
            Call::DropCollection(at) => {
                if place == at {
                    assert(held(after.state, at) =~= reloaded(after.disk, at));
                } else {
                    assert(log_at(after.disk, place) == log_at(before.disk, place));
                    assert(held(after.state, place) == held(before.state, place));
                    assert(reloaded(after.disk, place) == reloaded(before.disk, place));
                }
            },
            Call::DropDatabase(db) => {
                if after != before {
                    if place.0 == db {
                        assert(held(after.state, place) =~= reloaded(after.disk, place));
                    } else {
                        assert(log_at(after.disk, place) == log_at(before.disk, place));
                        assert(held(after.state, place) == held(before.state, place));
                        assert(reloaded(after.disk, place) == reloaded(before.disk, place));
                    }
                }
            },
            Call::Other => {
                assert(held(after.state, place) == held(before.state, place));
            },
        }
    }
}

/// An insertion keeps every other collection saved.
proof fn lemma_insert_spares(ins: Insertion, before: Store, after: Store, other: Place)
    requires
        saved_at(before, other),
        made(Call::Insert(ins), before, after),
        other != ins.place(),
    ensures
        saved_at(after, other),
{
    let docs = ins.documents();
    let log = log_at(before.disk, ins.place());
    let end = log.len() as u64;
    assert(log_at(after.disk, other) == log_at(before.disk, other));
    assert(reloaded(after.disk, other) == reloaded(before.disk, other));
    assert(ins.at(Stage::Append(end)).place() == ins.place());
    assert(same_at(inserted(before.state, ins, log), before.state, other));
    assert(held(after.state, other) == held(before.state, other));
}

/// A run of calls leaves the files telling what the engine knows.
pub proof fn law_every_run_keeps_the_store_saved(stores: Seq<Store>, calls: Seq<Call>)
    requires
        stores.len() == calls.len() + 1,
        saved(stores[0]),
        forall|i: int|
            0 <= i < calls.len() ==> made(#[trigger] calls[i], stores[i], stores[i + 1]),
    ensures
        saved(stores.last()),
    decreases calls.len(),
{
    if calls.len() > 0 {
        let fewer = calls.drop_last();
        let less = stores.drop_last();
        assert forall|i: int| 0 <= i < fewer.len() implies made(
            #[trigger] fewer[i],
            less[i],
            less[i + 1],
        ) by {
            assert(fewer[i] == calls[i]);
        }
        law_every_run_keeps_the_store_saved(less, fewer);
        let last = calls.len() - 1;
        assert(made(calls[last], stores[last], stores[last + 1]));
        law_every_call_keeps_the_store_saved(calls[last], stores[last], stores[last + 1]);
    }
}

/// Indexes persist: after any run of calls, an engine that is started over the files that the run
/// left has the same fields of every collection indexed, and holds the same indexes.
pub proof fn law_indexes_persist(
    files: Seq<DirFile>,
    stores: Seq<Store>,
    calls: Seq<Call>,
    left: Seq<DirFile>,
    fresh: State,
    place: Place,
)
    requires
        lists_disk(files, stores[0].disk),
        stores[0].state.indexes == loaded_files(files),
        stores[0].state.lengths == Map::<Place, u64>::empty(),
        stores.len() == calls.len() + 1,
        forall|i: int|
            0 <= i < calls.len() ==> made(#[trigger] calls[i], stores[i], stores[i + 1]),
        lists_disk(left, stores.last().disk),
        fresh.indexes == loaded_files(left),
    ensures
        held(fresh, place) == held(stores.last().state, place),
        indexed_fields(fresh, place) == indexed_fields(stores.last().state, place),
{
    let first = stores[0];
    assert forall|at: Place| #[trigger] saved_at(first, at) by {
        law_a_new_engine_reloads(files, first.disk, first.state, at);
    }
    law_every_run_keeps_the_store_saved(stores, calls);
    assert(saved_at(stores.last(), place));
    law_a_new_engine_reloads(left, stores.last().disk, fresh, place);
    assert(held(fresh, place).dom() =~= indexed_fields(fresh, place));
    assert(held(stores.last().state, place).dom() =~= indexed_fields(stores.last().state, place));
}

/// A dropped collection is gone: it has no log, so that it does not exist, holds no documents and
/// is not listed; it has no sidecar, and no field of it is indexed. Dropping it again finds no log
/// and changes nothing. Every other collection is as it was.
pub proof fn law_a_dropped_collection_is_gone(
    before: Store,
    after: Store,
    again: Store,
    place: Place,
    names: Seq<Seq<char>>,
    other: Place,
)
    requires
        made(Call::DropCollection(place), before, after),
        made(Call::DropCollection(place), after, again),
        lists_directory(names, after.disk, place.0),
    ensures
        !after.disk.logs.contains_key(place),
        filled(log_records(log_at(after.disk, place))) == 0,
        !stems(names, ".ndjson"@).contains(place.1),
        !after.disk.sidecars.contains_key(place),
        indexed_fields(after.state, place) == Set::<Seq<char>>::empty(),
        again == after,
        other != place ==> {
            &&& same_at(after.state, before.state, other)
            &&& after.disk.logs.contains_key(other) == before.disk.logs.contains_key(other)
            &&& log_at(after.disk, other) == log_at(before.disk, other)
            &&& sidecar_at(after.disk, other) == sidecar_at(before.disk, other)
        },
{
    law_logs_are_listed(names, place.1);
    assert(log_records(log_at(after.disk, place)) =~= seq![]);
    assert(again.disk.logs =~= after.disk.logs);
    assert(again.disk.sidecars =~= after.disk.sidecars);
    assert(again.state.lengths =~= after.state.lengths);
    assert(again.state.indexes =~= after.state.indexes);
}

} // verus!

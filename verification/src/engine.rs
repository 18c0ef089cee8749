//! The engine: what it knows of the collections, and what it does with them.
//!
//! The engine itself reads and writes no files. It is given what files hold, and says what is to
//! be written and removed.

use crate::catalog::{
    directories, files_to_remove, lists_names, log_file, log_path, removals, removed, sidecar_file,
    sidecar_path, sort_names, sorted_directories, sorted_stems, sorts, stems, CollectionRemoval,
    DatabaseRemoval, DirEntry, FilePath,
};
use crate::document::{is_id, line_of, prints_well, running, Counter};
use crate::error::EngineError;
use crate::filter::{demands, Filter};
use crate::index::{
    collection_behind, collections_of, field_names, fields_of, get_collection, get_handle,
    has_field, insert_collection, insert_field, insert_handle, lengths_of, new_coll_indexes,
    new_handles, new_indexes, offsets_of, push_offset, remove_collection, remove_field,
    remove_handle, retain_collections, retain_handles, CollIndexes, Handles, Indexes, Place,
};
use crate::insertion::{
    fits, is_annotated, is_excess, joins, Batch, Event, Insertion, Stage, MAX_BATCH,
};
use crate::json::{get, json_of, json_text, jsons, member, to_string, Json};
use crate::laws_files::law_every_log_and_sidecar_goes;
use crate::laws_store::law_an_insertion_holds_what_was_handed_in;
use crate::log::{
    all_text, build_field_index, contents, count_lines, filled, gives, log_records, read_at_offsets,
    readable, scan, scan_records,
};
use crate::name::{is_invalid_name, valid_name, validate_name};
use crate::offsets::take_page;
use crate::reading::{
    all_indexed, demands_no_zero, found, found_offsets, in_force, index_matches, last_n,
    law_lines_count_documents, law_lookup_agrees_with_scan, law_tail_is_the_last,
    lemma_tail_by_scan, lookup, matching, tailed, told_apart, uses_index,
};
use crate::sidecar::{load_file, loaded_files, names_fields, sidecar_text, DirFile, SidecarUpdate};
use crate::state::{
    all_join, expected, first_stage, index_at, indexed_fields, listed, next_stage, next_state,
    refused, refused_field, stamped, starts, with_index, without_collection, without_database,
    without_index, State,
};
use crate::text::texts;
use crate::writing::{index_after, lemma_encode_concat, lines_of};
use serde_json::Value;
use vstd::prelude::*;
use vstd::utf8::{encode_scalar, encode_utf8};

verus! {

/// The most documents that may be skipped.
pub const MAX_OFFSET: usize = 10_000_000;

/// The engine.
pub struct Engine {
    fsync: bool,
    handles: Handles,
    indexes: Indexes,
}

impl View for Engine {
    type V = State;

    closed spec fn view(&self) -> State {
        State {
            syncs: self.fsync,
            lengths: lengths_of(self.handles),
            indexes: collections_of(self.indexes),
        }
    }
}

/// How documents are to be found.
pub enum FindPlan {
    /// They start at these offsets of the log.
    Lookup(Vec<u64>),
    /// The log has to be scanned.
    Scan,
}

/// What is known of the size of a collection.
#[derive(Debug)]
pub struct CollStats {
    pub exists: bool,
    pub count: usize,
    pub size_bytes: u64,
}

impl Default for CollStats {
    /// The size of a collection that does not exist.
    fn default() -> (res: CollStats)
        ensures
            res == (CollStats { exists: false, count: 0, size_bytes: 0 }),
    {
        CollStats { exists: false, count: 0, size_bytes: 0 }
    }
}

/// A document that fits is no more than a batch holds.
proof fn lemma_one_fits(doc: Json)
    requires
        fits(doc),
    ensures
        lines_of(seq![doc]).len() <= MAX_BATCH,
{
    let text = json_text(doc);
    assert(seq![doc].drop_last() =~= Seq::<Json>::empty());
    assert(lines_of(Seq::<Json>::empty()) =~= Seq::<u8>::empty());
    assert(lines_of(seq![doc]) =~= line_of(doc));
    lemma_encode_concat(text, seq!['\n']);
    assert(text.push('\n') =~= text + seq!['\n']);
    assert(encode_utf8(seq!['\n']).len() <= 4) by {
        assert(seq!['\n'].drop_first() =~= seq![]);
        assert(encode_utf8(Seq::<char>::empty()) =~= seq![]);
        assert(encode_scalar('\n' as u32).len() <= 4);
    }
}

/// The place of a line among the lines, and its end.
proof fn lemma_lines_grow(docs: Seq<Json>, i: int)
    requires
        0 <= i < docs.len(),
    ensures
        lines_of(docs.take(i)).len() <= lines_of(docs.take(i + 1)).len() <= lines_of(docs).len(),
    decreases docs.len(),
{
    assert(docs.take(i + 1).drop_last() =~= docs.take(i));
    if i + 1 == docs.len() {
        assert(docs.take(i + 1) =~= docs);
    } else {
        lemma_lines_grow(docs.drop_last(), i);
        assert(docs.drop_last().take(i) =~= docs.take(i));
        assert(docs.drop_last().take(i + 1) =~= docs.take(i + 1));
    }
}

/// The documents of an insertion that has started keep the members that were handed in.
proof fn lemma_members_are_kept(
    state: State,
    place: Place,
    docs: Seq<Value>,
    first: u16,
    ids: Seq<Seq<char>>,
    stored: Seq<Json>,
    ins: Insertion,
)
    requires
        starts(state, place, docs, first, ids, stored, Ok(ins)),
    ensures
        ins.documents().len() == docs.len(),
        forall|i: int, name: Seq<char>|
            0 <= i < docs.len() && name != "_id"@ && name != "_ts"@ ==> #[trigger] member(
                ins.documents()[i],
                name,
            ) == member(json_of(docs[i]), name),
{
    assert forall|i: int, name: Seq<char>|
        0 <= i < docs.len() && name != "_id"@ && name != "_ts"@ implies #[trigger] member(
        ins.documents()[i],
        name,
    ) == member(json_of(docs[i]), name) by {
        law_an_insertion_holds_what_was_handed_in(
            state,
            place.0,
            place.1,
            docs,
            first,
            ids,
            stored,
            ins,
            i,
            name,
        );
    }
}

/// Accepts the names of a database and a collection.
fn check_names(db: &str, coll: &str) -> (res: Result<(), EngineError>)
    ensures
        match res {
            Ok(()) => refused(db@, coll@) is None,
            Err(e) => refused(db@, coll@) matches Some(name) && is_invalid_name(e, name),
        },
{
    match validate_name(db) {
        Err(e) => Err(e),
        Ok(()) => validate_name(coll),
    }
}

/// Builds the indexes that the files name.
fn rebuild_indexes(files: &Vec<DirFile>) -> (res: Indexes)
    ensures
        collections_of(res) == loaded_files(files@),
{
    let mut all = new_indexes();
    let mut i: usize = 0;
    assert(files@.take(0) =~= seq![]);
    while i < files.len()
        invariant
            i <= files@.len(),
            collections_of(all) == loaded_files(files@.take(i as int)),
        decreases files@.len() - i,
    {
        proof {
            assert(files@.take(i + 1).drop_last() =~= files@.take(i as int));
            assert(files@.take(i + 1).last() == files@[i as int]);
        }
        match load_file(&files[i]) {
            Some((coll, fields)) => {
                insert_collection(&mut all, (files[i].db.clone(), coll), fields);
            },
            None => {},
        }
        i = i + 1;
    }
    assert(files@.take(files@.len() as int) =~= files@);
    all
}

/// Lists a document in the indexes of its collection.
fn list_document(fields: &mut CollIndexes, doc: &Value, offset: u64)
    ensures
        fields_of(*final(fields)) == index_after(fields_of(*old(fields)), json_of(*doc), offset),
{
    let ghost before = fields_of(*fields);
    let ghost after = index_after(before, json_of(*doc), offset);
    let names = field_names(fields);
    let mut i: usize = 0;
    while i < names.len()
        invariant
            i <= names@.len(),
            after == index_after(before, json_of(*doc), offset),
            forall|a: int, b: int| 0 <= a < b < names@.len() ==> names@[a]@ != names@[b]@,
            forall|a: int| 0 <= a < names@.len() ==> before.contains_key((#[trigger] names@[a])@),
            forall|k: Seq<char>| #[trigger]
                fields_of(*fields).contains_key(k) <==> before.contains_key(k),
            forall|a: int|
                0 <= a < i ==> fields_of(*fields)[(#[trigger] names@[a])@] == after[names@[a]@],
            forall|a: int|
                i <= a < names@.len() ==> fields_of(*fields)[(#[trigger] names@[a])@]
                    == before[names@[a]@],
        decreases names@.len() - i,
    {
        let ghost field = names@[i as int]@;
        let ghost now = fields_of(*fields);
        assert(before.contains_key(field));
        match get(doc, names[i].as_str()) {
            Some(v) => {
                let text = match to_string(v) {
                    Ok(text) => text,
                    Err(_) => String::new(),
                };
                match remove_field(fields, names[i].as_str()) {
                    Some(mut index) => {
                        push_offset(&mut index, text, offset);
                        assert(offsets_of(index) == after[field]);
                        insert_field(fields, names[i].clone(), index);
                    },
                    None => {},
                }
            },
            None => {
                assert(after[field] == before[field]);
            },
        }
        i = i + 1;
    }
    proof {
        assert forall|k: Seq<char>| #[trigger] fields_of(*fields).contains_key(k) implies fields_of(
            *fields,
        )[k] == after[k] by {
            assert(before.contains_key(k));
            let a = choose|a: int| 0 <= a < names@.len() && (#[trigger] names@[a])@ == k;
            assert(names@[a]@ == k);
        }
        assert(fields_of(*fields) =~= after);
    }
}

impl Engine {
    /// An engine over the files that were found in the directories of the databases.
    pub fn new(fsync: bool, files: &Vec<DirFile>) -> (res: Engine)
        ensures
            res@ == (State {
                syncs: fsync,
                lengths: (Map::<Place, u64>::empty()),
                indexes: loaded_files(files@),
            }),
    {
        Engine {
            fsync,
            handles: new_handles(),
            indexes: rebuild_indexes(files),
        }
    }

    /// Lists a document in the indexes of its collection, where it has any.
    fn update_indexes_for_doc(&mut self, db: &str, coll: &str, doc: &Value, offset: u64)
        ensures
            final(self)@ == (State {
                indexes: if old(self)@.indexes.contains_key((db@, coll@)) {
                    old(self)@.indexes.insert(
                        (db@, coll@),
                        index_after(old(self)@.indexes[(db@, coll@)], json_of(*doc), offset),
                    )
                } else {
                    old(self)@.indexes
                },
                ..old(self)@
            }),
    {
        let key = (db.to_owned(), coll.to_owned());
        match remove_collection(&mut self.indexes, &key) {
            Some(mut fields) => {
                list_document(&mut fields, doc, offset);
                insert_collection(&mut self.indexes, key, fields);
            },
            None => {},
        }
        proof {
            let place = (db@, coll@);
            if !old(self)@.indexes.contains_key(place) {
                assert(old(self)@.indexes.remove(place) =~= old(self)@.indexes);
            } else {
                let new = index_after(old(self)@.indexes[place], json_of(*doc), offset);
                assert(old(self)@.indexes.remove(place).insert(place, new)
                    =~= old(self)@.indexes.insert(place, new));
            }
        }
    }

    /// Lists the documents of an insertion, which stand in the log from `base` on.
    fn list_batch(&mut self, ins: &Insertion, base: u64)
        requires
            base + lines_of(ins.documents()).len() <= u64::MAX,
        ensures
            final(self)@ == (State {
                indexes: listed(old(self)@.indexes, ins.place(), ins.documents(), base as int),
                ..old(self)@
            }),
    {
        let docs = ins.batch.docs();
        let ghost all = ins.documents();
        let ghost before = self@;
        let mut i: usize = 0;
        proof {
            assert(all.take(0) =~= seq![]);
            if before.indexes.contains_key(ins.place()) {
                assert(before.indexes.insert(ins.place(), before.indexes[ins.place()])
                    =~= before.indexes);
            }
        }
        while i < docs.len()
            invariant
                i <= docs@.len(),
                all == ins.documents(),
                docs@.len() == all.len(),
                base + lines_of(all).len() <= u64::MAX,
                forall|k: int|
                    0 <= k < docs@.len() ==> json_of((#[trigger] docs@[k]).0) == all[k]
                        && docs@[k].1 == lines_of(all.take(k)).len(),
                self@ == (State {
                    indexes: listed(before.indexes, ins.place(), all.take(i as int), base as int),
                    ..before
                }),
            decreases docs@.len() - i,
        {
            proof {
                lemma_lines_grow(all, i as int);
                assert(all.take(i + 1).drop_last() =~= all.take(i as int));
                assert(all.take(i + 1).last() == all[i as int]);
            }
            self.update_indexes_for_doc(
                ins.db.as_str(),
                ins.coll.as_str(),
                &docs[i].0,
                base + docs[i].1,
            );
            assert(self@.indexes =~= listed(
                before.indexes,
                ins.place(),
                all.take(i + 1),
                base as int,
            ));
            i = i + 1;
        }
        assert(all.take(all.len() as int) =~= all);
    }

    /// Starts the insertion of a batch. Without documents nothing is to be done.
    pub fn begin(&self, db: &str, coll: &str, batch: Batch) -> (res: Result<Insertion, EngineError>)
        ensures
            match res {
                Ok(ins) => {
                    &&& ins.place() == (db@, coll@)
                    &&& ins.batch == batch
                    &&& ins.stage == first_stage(self@, (db@, coll@), batch.documents())
                    &&& batch.documents().len() > 0 ==> refused(db@, coll@) is None
                    &&& forall|i: int|
                        0 <= i < batch.documents().len() ==> prints_well(
                            #[trigger] batch.documents()[i],
                        )
                },
                Err(e) => batch.documents().len() > 0 && (refused(db@, coll@) matches Some(name)
                    && is_invalid_name(e, name)),
            },
    {
        let docs = batch.docs();
        let empty = docs.len() == 0;
        proof {
            assert forall|i: int| 0 <= i < batch.documents().len() implies prints_well(
                #[trigger] batch.documents()[i],
            ) by {
                assert(json_of(docs@[i].0) == batch.documents()[i]);
            }
        }
        if empty {
            return Ok(
                Insertion { db: db.to_owned(), coll: coll.to_owned(), batch, stage: Stage::Done },
            );
        }
        match check_names(db, coll) {
            Err(e) => {
                return Err(e);
            },
            Ok(()) => {},
        }
        let key = (db.to_owned(), coll.to_owned());
        let stage = match get_handle(&self.handles, &key) {
            Some(length) => Stage::Append(length),
            None => Stage::Open,
        };
        Ok(Insertion { db: key.0, coll: key.1, batch, stage })
    }

    /// Starts the insertion of documents. Each gets its identifier in turn, until one is too
    /// long.
    pub fn insert_many(
        &self,
        db: &str,
        coll: &str,
        docs: Vec<Value>,
        counter: &mut Counter,
    ) -> (res: Result<Insertion, EngineError>)
        ensures
            exists|ids: Seq<Seq<char>>, stored: Seq<Json>|
                {
                    &&& #[trigger] starts(
                        self@,
                        (db@, coll@),
                        docs@,
                        old(counter)@,
                        ids,
                        stored,
                        res,
                    )
                    &&& final(counter)@ == running(old(counter)@, stored.len())
                },
            res matches Ok(ins) ==> ins.documents().len() == docs@.len() && forall|
                i: int,
                name: Seq<char>,
            |
                0 <= i < docs@.len() && name != "_id"@ && name != "_ts"@ ==> #[trigger] member(
                    ins.documents()[i],
                    name,
                ) == member(json_of(docs@[i]), name),
    {
        let ghost all = docs@;
        let ghost first = counter@;
        let mut batch = Batch::new();
        for doc in it: docs.into_iter()
            invariant
                it.seq() == all,
                all == docs@,
                first == old(counter)@,
                batch.documents().len() == it.index(),
                stamped(
                    all.take(it.index() as int),
                    batch.id_texts(),
                    batch.documents(),
                    first,
                ),
                all_join(batch.documents()),
                counter@ == running(first, it.index() as nat),
        {
            let ghost i = it.index() as int;
            let ghost ids = batch.id_texts();
            let ghost stored = batch.documents();
            let number = counter.take();
            let next = batch.add_now(doc, number);
            proof {
                let (id, new) = choose|id: Seq<char>, new: Json|
                    {
                        &&& is_id(id, number as u64)
                        &&& #[trigger] is_annotated(json_of(doc), id, new)
                        &&& match joins(stored, new) {
                            Ok(docs) => next matches Ok(batch) && batch.documents() == docs
                                && batch.id_texts() == ids.push(id),
                            Err(excess) => next matches Err(e) && is_excess(e, excess),
                        }
                    };
                let longer = all.take(i + 1);
                assert(longer =~= all.take(i).push(doc));
                assert(stamped(longer, ids.push(id), stored.push(new), first)) by {
                    assert forall|k: int| 0 <= k < longer.len() implies is_id(
                        #[trigger] ids.push(id)[k],
                        running(first, k as nat) as u64,
                    ) && is_annotated(
                        json_of(longer[k]),
                        ids.push(id)[k],
                        stored.push(new)[k],
                    ) by {
                        if k < i {
                            assert(longer[k] == all.take(i)[k]);
                            assert(ids.push(id)[k] == ids[k]);
                        }
                    }
                }
                assert(stored.push(new).drop_last() =~= stored);
                if joins(stored, new) is Ok {
                    assert(all_join(stored.push(new))) by {
                        assert forall|k: int| 0 <= k < stored.push(new).len() implies joins(
                            stored.push(new).take(k),
                            #[trigger] stored.push(new)[k],
                        ) is Ok by {
                            if k < i {
                                assert(stored.push(new).take(k) =~= stored.take(k));
                                assert(stored.push(new)[k] == stored[k]);
                            } else {
                                assert(stored.push(new).take(k) =~= stored);
                            }
                        }
                    }
                } else {
                    assert(starts(
                        self@,
                        (db@, coll@),
                        all,
                        first,
                        ids.push(id),
                        stored.push(new),
                        Err(next->Err_0),
                    ));
                }
            }
            batch = match next {
                Ok(longer) => longer,
                Err(e) => {
                    return Err(e);
                },
            };
        }
        let ghost ids = batch.id_texts();
        let ghost stored = batch.documents();
        assert(all.take(all.len() as int) =~= all);
        let res = self.begin(db, coll, batch);
        proof {
            if res is Err {
                let last = stored.len() - 1;
                assert(stored.take(last) =~= stored.drop_last());
                assert(joins(stored.take(last), stored[last]) is Ok);
                assert forall|k: int| 0 <= k < stored.drop_last().len() implies joins(
                    stored.drop_last().take(k),
                    #[trigger] stored.drop_last()[k],
                ) is Ok by {
                    assert(stored.drop_last().take(k) =~= stored.take(k));
                    assert(stored.drop_last()[k] == stored[k]);
                }
            }
            assert(starts(self@, (db@, coll@), all, first, ids, stored, res));
            if res is Ok {
                lemma_members_are_kept(self@, (db@, coll@), all, first, ids, stored, res->Ok_0);
            }
        }
        res
    }

    /// Starts the insertion of one document.
    pub fn insert(&self, db: &str, coll: &str, doc: Value, counter: &mut Counter) -> (res: Result<
        Insertion,
        EngineError,
    >)
        ensures
            exists|ids: Seq<Seq<char>>, stored: Seq<Json>| #[trigger]
                starts(self@, (db@, coll@), seq![doc], old(counter)@, ids, stored, res),
            final(counter)@ == running(old(counter)@, 1),
            !(res matches Err(EngineError::BatchTooLarge)),
            res matches Ok(ins) ==> ins.documents().len() == 1 && forall|name: Seq<char>|
                name != "_id"@ && name != "_ts"@ ==> #[trigger] member(ins.documents()[0], name)
                    == member(json_of(doc), name),
    {
        let ghost first = counter@;
        let number = counter.take();
        let next = Batch::new().add_now(doc, number);
        let ghost none = Seq::<Json>::empty();
        let ghost (id, new) = choose|id: Seq<char>, new: Json|
            {
                &&& is_id(id, number as u64)
                &&& #[trigger] is_annotated(json_of(doc), id, new)
                &&& match joins(none, new) {
                    Ok(docs) => next matches Ok(batch) && batch.documents() == docs
                        && batch.id_texts() == Seq::<Seq<char>>::empty().push(id),
                    Err(excess) => next matches Err(e) && is_excess(e, excess),
                }
            };
        proof {
            assert(none.push(new) =~= seq![new]);
            assert(Seq::<Seq<char>>::empty().push(id) =~= seq![id]);
            assert(seq![doc].take(1) =~= seq![doc]);
            assert(stamped(seq![doc], seq![id], seq![new], first));
            assert(seq![new].drop_last() =~= none);
            assert(seq![new].take(0) =~= none);
            if fits(new) {
                lemma_one_fits(new);
            }
        }
        match next {
            Err(e) => {
                assert(starts(
                    self@,
                    (db@, coll@),
                    seq![doc],
                    first,
                    seq![id],
                    seq![new],
                    Err(e),
                ));
                Err(e)
            },
            Ok(batch) => {
                let res = self.begin(db, coll, batch);
                proof {
                    assert(starts(
                        self@,
                        (db@, coll@),
                        seq![doc],
                        first,
                        seq![id],
                        seq![new],
                        res,
                    ));
                    if res is Ok {
                        lemma_members_are_kept(
                            self@,
                            (db@, coll@),
                            seq![doc],
                            first,
                            seq![id],
                            seq![new],
                            res->Ok_0,
                        );
                        assert(seq![doc][0] == doc);
                    }
                }
                res
            },
        }
    }

    /// Takes an insertion one step further, once the step that its stage asks for was made.
    pub fn advance(&mut self, ins: Insertion, event: Event) -> (res: Result<Insertion, EngineError>)
        requires
            expected(ins.stage, event),
            match ins.stage {
                Stage::Append(base) => {
                    &&& old(self)@.lengths.contains_key(ins.place())
                    &&& old(self)@.lengths[ins.place()] == base
                    &&& base + lines_of(ins.documents()).len() <= u64::MAX
                },
                Stage::Sync(base) => base + lines_of(ins.documents()).len() <= u64::MAX,
                _ => true,
            },
        ensures
            match event {
                Event::Failed(e) => res == Err::<Insertion, EngineError>(EngineError::Io(e)),
                _ => res == Ok::<Insertion, EngineError>(
                    ins.at(next_stage(old(self)@, ins, event)),
                ),
            },
            final(self)@ == next_state(old(self)@, ins, event),
    {
        let stage = match (&ins.stage, event) {
            (_, Event::Failed(e)) => {
                return Err(EngineError::Io(e));
            },
            (Stage::Open, Event::Opened(length)) => {
                let key = (ins.db.clone(), ins.coll.clone());
                match get_handle(&self.handles, &key) {
                    Some(known) => Stage::Append(known),
                    None => {
                        insert_handle(&mut self.handles, key, length);
                        Stage::Append(length)
                    },
                }
            },
            (Stage::Append(base), _) => {
                let key = (ins.db.clone(), ins.coll.clone());
                let end = *base + ins.batch.blob().len() as u64;
                insert_handle(&mut self.handles, key, end);
                if self.fsync {
                    Stage::Sync(*base)
                } else {
                    self.list_batch(&ins, *base);
                    Stage::Done
                }
            },
            (Stage::Sync(base), _) => {
                self.list_batch(&ins, *base);
                Stage::Done
            },
            (_, _) => Stage::Done,
        };
        Ok(Insertion { db: ins.db, coll: ins.coll, batch: ins.batch, stage })
    }

    /// Where the log of a collection is.
    pub fn coll_path(&self, db: &str, coll: &str) -> (res: Result<FilePath, EngineError>)
        ensures
            match res {
                Ok(path) => refused(db@, coll@) is None && path.dir@ == db@ && path.file@
                    == log_file(coll@),
                Err(e) => refused(db@, coll@) matches Some(name) && is_invalid_name(e, name),
            },
    {
        match check_names(db, coll) {
            Err(e) => Err(e),
            Ok(()) => Ok(log_path(db, coll)),
        }
    }

    /// How the documents of a page are to be found.
    pub fn plan_find(
        &self,
        db: &str,
        coll: &str,
        n: usize,
        offset: usize,
        filter: Option<&Filter>,
    ) -> (res: Result<FindPlan, EngineError>)
        ensures
            match res {
                Ok(plan) => {
                    &&& offset <= MAX_OFFSET
                    &&& refused(db@, coll@) is None
                    &&& match plan {
                        FindPlan::Lookup(list) => {
                            &&& uses_index(index_at(self@, (db@, coll@)), demands(filter))
                            &&& list@ == found_offsets(
                                index_at(self@, (db@, coll@)).unwrap(),
                                demands(filter).unwrap(),
                                n as nat,
                                offset as nat,
                            )
                            &&& told_apart(demands(filter).unwrap())
                        },
                        FindPlan::Scan => !uses_index(
                            index_at(self@, (db@, coll@)),
                            demands(filter),
                        ),
                    }
                },
                Err(e) => if offset > MAX_OFFSET {
                    e is OffsetTooLarge
                } else {
                    refused(db@, coll@) matches Some(name) && is_invalid_name(e, name)
                },
            },
    {
        if offset > MAX_OFFSET {
            return Err(EngineError::OffsetTooLarge);
        }
        match check_names(db, coll) {
            Err(e) => {
                return Err(e);
            },
            Ok(()) => {},
        }
        let key = (db.to_owned(), coll.to_owned());
        match filter {
            Some(f) => {
                if !f.is_empty() {
                    match get_collection(&self.indexes, &key) {
                        Some(guard) => {
                            let fields = collection_behind(&guard);
                            if all_indexed(fields, f) && demands_no_zero(f) {
                                return match lookup(fields, f) {
                                    Ok(list) => Ok(FindPlan::Lookup(take_page(&list, offset, n))),
                                    Err(e) => Err(e),
                                };
                            }
                        },
                        None => {},
                    }
                }
            },
            None => {},
        }
        Ok(FindPlan::Scan)
    }

    /// The documents on a page of those that pass the filter, in a collection whose log holds
    /// `data`. Where the indexes list what the log holds, they find what a scan would find.
    pub fn find(
        &self,
        db: &str,
        coll: &str,
        n: usize,
        offset: usize,
        filter: Option<&Filter>,
        data: Option<&[u8]>,
    ) -> (res: Result<Vec<Value>, EngineError>)
        ensures
            if offset > MAX_OFFSET {
                res matches Err(EngineError::OffsetTooLarge)
            } else {
                match refused(db@, coll@) {
                    Some(name) => res matches Err(e) && is_invalid_name(e, name),
                    None => {
                        &&& gives(
                            res,
                            found(
                                index_at(self@, (db@, coll@)),
                                contents(data),
                                n as nat,
                                offset as nat,
                                demands(filter),
                            ),
                        )
                        &&& ({
                            let scanned = scan_records(
                                log_records(contents(data)),
                                demands(filter),
                                offset as nat,
                                Some(n as nat),
                            );
                            (index_at(self@, (db@, coll@)) matches Some(index) ==> index_matches(
                                index,
                                contents(data),
                            )) && scanned is Ok && n > 0 ==> gives(res, scanned)
                        })
                    },
                }
            },
    {
        match self.plan_find(db, coll, n, offset, filter) {
            Err(e) => Err(e),
            Ok(FindPlan::Lookup(list)) => {
                proof {
                    let index = index_at(self@, (db@, coll@));
                    match data {
                        Some(bytes) => {
                            assert(bytes.len() == bytes@.len());
                        },
                        None => {},
                    }
                    let scanned = scan_records(
                        log_records(contents(data)),
                        demands(filter),
                        offset as nat,
                        Some(n as nat),
                    );
                    if index_matches(index.unwrap(), contents(data)) && scanned is Ok && n > 0 {
                        law_lookup_agrees_with_scan(
                            contents(data),
                            index.unwrap(),
                            demands(filter).unwrap(),
                            offset as nat,
                            n as nat,
                        );
                    }
                }
                read_at_offsets(data, &list)
            },
            Ok(FindPlan::Scan) => scan(data, Some(n), offset, filter),
        }
    }

    /// The last documents that pass the filter, in a collection whose log holds `data`.
    pub fn tail(
        &self,
        db: &str,
        coll: &str,
        n: usize,
        filter: Option<&Filter>,
        data: Option<&[u8]>,
    ) -> (res: Result<Vec<Value>, EngineError>)
        ensures
            match refused(db@, coll@) {
                Some(name) => res matches Err(e) && is_invalid_name(e, name),
                None => {
                    &&& gives(res, tailed(contents(data), n as nat, demands(filter)))
                    &&& readable(log_records(contents(data))) ==> gives(
                        res,
                        Ok(
                            last_n(
                                matching(log_records(contents(data)), in_force(demands(filter))),
                                n as nat,
                            ),
                        ),
                    )
                },
            },
    {
        match check_names(db, coll) {
            Err(e) => {
                return Err(e);
            },
            Ok(()) => {},
        }
        proof {
            if readable(log_records(contents(data))) {
                law_tail_is_the_last(contents(data), n as nat, demands(filter));
            }
        }
        match filter {
            Some(f) => {
                if !f.is_empty() {
                    return match scan(data, None, 0, filter) {
                        Err(e) => Err(e),
                        Ok(mut all) => {
                            let start = if all.len() > n {
                                all.len() - n
                            } else {
                                0
                            };
                            let ghost before = all@;
                            let last = all.split_off(start);
                            assert(jsons(last@) =~= last_n(jsons(before), n as nat));
                            Ok(last)
                        },
                    };
                }
            },
            None => {},
        }
        let total = count_lines(data);
        let offset = if total > n {
            total - n
        } else {
            0
        };
        proof {
            lemma_tail_by_scan(contents(data), n as nat, offset as nat);
        }
        scan(data, Some(n), offset, None)
    }

    /// The size of a collection whose log holds `data`: how many lines in it are not blank, and how
    /// many bytes it takes.
    pub fn stats(&self, db: &str, coll: &str, data: Option<&[u8]>) -> (res: Result<
        CollStats,
        EngineError,
    >)
        ensures
            match res {
                Ok(stats) => {
                    &&& refused(db@, coll@) is None
                    &&& stats.exists == (data is Some)
                    &&& stats.count == filled(log_records(contents(data)))
                    &&& stats.size_bytes == contents(data).len()
                    &&& readable(log_records(contents(data))) ==> stats.count == matching(
                        log_records(contents(data)),
                        None,
                    ).len()
                },
                Err(e) => refused(db@, coll@) matches Some(name) && is_invalid_name(e, name),
            },
    {
        match check_names(db, coll) {
            Err(e) => {
                return Err(e);
            },
            Ok(()) => {},
        }
        proof {
            if readable(log_records(contents(data))) {
                law_lines_count_documents(log_records(contents(data)));
            }
        }
        match data {
            None => Ok(CollStats::default()),
            Some(bytes) => Ok(
                CollStats {
                    exists: true,
                    count: count_lines(data),
                    size_bytes: bytes.len() as u64,
                },
            ),
        }
    }

    /// Whether a field of a collection is indexed.
    pub fn is_indexed(&self, db: &str, coll: &str, field: &str) -> (res: Result<bool, EngineError>)
        ensures
            match res {
                Ok(b) => refused_field(db@, coll@, field@) is None && b == indexed_fields(
                    self@,
                    (db@, coll@),
                ).contains(field@),
                Err(e) => refused_field(db@, coll@, field@) matches Some(name) && is_invalid_name(
                    e,
                    name,
                ),
            },
    {
        match check_names(db, coll) {
            Err(e) => {
                return Err(e);
            },
            Ok(()) => {},
        }
        match validate_name(field) {
            Err(e) => {
                return Err(e);
            },
            Ok(()) => {},
        }
        let key = (db.to_owned(), coll.to_owned());
        match get_collection(&self.indexes, &key) {
            Some(guard) => Ok(has_field(collection_behind(&guard), field)),
            None => Ok(false),
        }
    }

    /// The fields of a collection that are indexed, sorted.
    fn sorted_fields(&self, db: &str, coll: &str) -> (res: Vec<String>)
        ensures
            lists_names(texts(res@), indexed_fields(self@, (db@, coll@))),
    {
        let key = (db.to_owned(), coll.to_owned());
        match get_collection(&self.indexes, &key) {
            Some(guard) => {
                let names = field_names(collection_behind(&guard));
                proof {
                    let index = index_at(self@, (db@, coll@)).unwrap();
                    assert forall|i: int, j: int|
                        0 <= i < names@.len() && 0 <= j < names@.len() && i != j implies texts(
                        names@,
                    )[i] != texts(names@)[j] by {
                        if i < j {
                            assert(names@[i]@ != names@[j]@);
                        } else {
                            assert(names@[j]@ != names@[i]@);
                        }
                    }
                    assert forall|k: Seq<char>| texts(names@).to_set().contains(k)
                        <==> index.dom().contains(k) by {
                        if index.contains_key(k) {
                            let i = choose|i: int|
                                0 <= i < names@.len() && (#[trigger] names@[i])@ == k;
                            assert(texts(names@)[i] == k);
                        }
                        if texts(names@).contains(k) {
                            let i = choose|i: int| 0 <= i < names@.len() && texts(names@)[i] == k;
                            assert(index.contains_key(names@[i]@));
                        }
                    }
                    assert(texts(names@).to_set() =~= index.dom());
                }
                sort_names(names)
            },
            None => {
                let none: Vec<String> = Vec::new();
                assert(texts(none@) =~= seq![]);
                none
            },
        }
    }

    /// What is to become of the sidecar of a collection.
    fn save_sidecar(&self, db: &str, coll: &str) -> (res: SidecarUpdate)
        ensures
            names_fields(res, (db@, coll@), indexed_fields(self@, (db@, coll@))),
    {
        let fields = self.sorted_fields(db, coll);
        let path = sidecar_path(db, coll);
        if fields.len() == 0 {
            assert(indexed_fields(self@, (db@, coll@)) =~= Set::empty());
            SidecarUpdate { path, content: None }
        } else {
            proof {
                assert(texts(fields@).contains(texts(fields@)[0]));
            }
            SidecarUpdate { path, content: Some(sidecar_text(fields)) }
        }
    }

    /// Indexes a field of a collection whose log holds `data`. Where it was indexed before,
    /// nothing is done and nothing is to be saved.
    pub fn create_index(
        &mut self,
        db: &str,
        coll: &str,
        field: &str,
        data: Option<&[u8]>,
    ) -> (res: Result<Option<SidecarUpdate>, EngineError>)
        ensures
            match refused_field(db@, coll@, field@) {
                Some(name) => (res matches Err(e) && is_invalid_name(e, name)) && final(self)@
                    == old(self)@,
                None => if indexed_fields(old(self)@, (db@, coll@)).contains(field@) {
                    res matches Ok(None) && final(self)@ == old(self)@
                } else if !all_text(log_records(contents(data))) {
                    res matches Err(EngineError::Io(_)) && final(self)@ == old(self)@
                } else {
                    &&& final(self)@ == with_index(
                        old(self)@,
                        (db@, coll@),
                        field@,
                        contents(data),
                    )
                    &&& res matches Ok(Some(update)) && names_fields(
                        update,
                        (db@, coll@),
                        indexed_fields(old(self)@, (db@, coll@)).insert(field@),
                    )
                },
            },
    {
        match self.is_indexed(db, coll, field) {
            Err(e) => {
                return Err(e);
            },
            Ok(true) => {
                return Ok(None);
            },
            Ok(false) => {},
        }
        let index = match build_field_index(data, field) {
            Err(e) => {
                return Err(e);
            },
            Ok(index) => index,
        };
        let key = (db.to_owned(), coll.to_owned());
        let mut fields = match remove_collection(&mut self.indexes, &key) {
            Some(fields) => fields,
            None => new_coll_indexes(),
        };
        insert_field(&mut fields, field.to_owned(), index);
        insert_collection(&mut self.indexes, key, fields);
        proof {
            let place = (db@, coll@);
            let after = with_index(old(self)@, place, field@, contents(data));
            assert(old(self)@.indexes.remove(place).insert(place, fields_of(fields))
                =~= after.indexes);
            assert(indexed_fields(self@, place) =~= indexed_fields(old(self)@, place).insert(
                field@,
            ));
        }
        Ok(Some(self.save_sidecar(db, coll)))
    }

    /// The fields of a collection that are indexed.
    pub fn list_indexes(&self, db: &str, coll: &str) -> (res: Result<Vec<String>, EngineError>)
        ensures
            match res {
                Ok(list) => refused(db@, coll@) is None && lists_names(
                    texts(list@),
                    indexed_fields(self@, (db@, coll@)),
                ),
                Err(e) => refused(db@, coll@) matches Some(name) && is_invalid_name(e, name),
            },
    {
        match check_names(db, coll) {
            Err(e) => Err(e),
            Ok(()) => Ok(self.sorted_fields(db, coll)),
        }
    }

    /// Drops the index of a field; says whether there was one, and what is to be saved.
    pub fn drop_index(&mut self, db: &str, coll: &str, field: &str) -> (res: Result<
        (bool, SidecarUpdate),
        EngineError,
    >)
        ensures
            match refused_field(db@, coll@, field@) {
                Some(name) => (res matches Err(e) && is_invalid_name(e, name)) && final(self)@
                    == old(self)@,
                None => {
                    &&& final(self)@ == without_index(old(self)@, (db@, coll@), field@)
                    &&& res matches Ok(done) && done.0 == indexed_fields(
                        old(self)@,
                        (db@, coll@),
                    ).contains(field@) && names_fields(
                        done.1,
                        (db@, coll@),
                        indexed_fields(old(self)@, (db@, coll@)).remove(field@),
                    )
                },
            },
    {
        let existed = match self.is_indexed(db, coll, field) {
            Err(e) => {
                return Err(e);
            },
            Ok(existed) => existed,
        };
        let key = (db.to_owned(), coll.to_owned());
        match remove_collection(&mut self.indexes, &key) {
            Some(mut fields) => {
                let gone = remove_field(&mut fields, field);
                insert_collection(&mut self.indexes, key, fields);
                proof {
                    let place = (db@, coll@);
                    assert(old(self)@.indexes.remove(place).insert(place, fields_of(fields))
                        =~= without_index(old(self)@, place, field@).indexes);
                }
            },
            None => {
                assert(old(self)@.indexes.remove((db@, coll@)) =~= old(self)@.indexes);
            },
        }
        assert(indexed_fields(self@, (db@, coll@)) =~= indexed_fields(
            old(self)@,
            (db@, coll@),
        ).remove(field@));
        Ok((existed, self.save_sidecar(db, coll)))
    }

    /// The databases, given the entries of the data directory.
    pub fn list_databases(&self, entries: &Vec<DirEntry>) -> (res: Vec<String>)
        ensures
            sorts(texts(res@), directories(entries@)),
    {
        sorted_directories(entries)
    }

    /// The collections of a database, given the names of the files in its directory, where there
    /// is one.
    pub fn list_collections(&self, db: &str, files: Option<&Vec<String>>) -> (res: Result<
        Vec<String>,
        EngineError,
    >)
        ensures
            match res {
                Ok(list) => valid_name(db@) && match files {
                    Some(names) => sorts(texts(list@), stems(texts(names@), ".ndjson"@)),
                    None => list@.len() == 0,
                },
                Err(e) => !valid_name(db@) && is_invalid_name(e, db@),
            },
    {
        match validate_name(db) {
            Err(e) => Err(e),
            Ok(()) => match files {
                Some(names) => Ok(sorted_stems(names, ".ndjson")),
                None => Ok(Vec::new()),
            },
        }
    }

    /// Forgets a collection, and says what is to be removed with it.
    pub fn drop_collection(&mut self, db: &str, coll: &str) -> (res: Result<
        CollectionRemoval,
        EngineError,
    >)
        ensures
            match refused(db@, coll@) {
                Some(name) => (res matches Err(e) && is_invalid_name(e, name)) && final(self)@
                    == old(self)@,
                None => {
                    &&& final(self)@ == without_collection(old(self)@, (db@, coll@))
                    &&& res matches Ok(removal) && removal.sidecar.dir@ == db@
                        && removal.sidecar.file@ == sidecar_file(coll@) && removal.log.dir@ == db@
                        && removal.log.file@ == log_file(coll@)
                },
            },
    {
        match check_names(db, coll) {
            Err(e) => {
                return Err(e);
            },
            Ok(()) => {},
        }
        let key = (db.to_owned(), coll.to_owned());
        remove_handle(&mut self.handles, &key);
        let gone = remove_collection(&mut self.indexes, &key);
        Ok(CollectionRemoval { sidecar: sidecar_path(db, coll), log: log_path(db, coll) })
    }

    /// Forgets the collections of a database, and says what is to be removed with it, given the
    /// names of the files in its directory. Without a directory there is nothing to drop.
    pub fn drop_database(&mut self, db: &str, files: Option<&Vec<String>>) -> (res: Result<
        Option<DatabaseRemoval>,
        EngineError,
    >)
        ensures
            match res {
                Ok(Some(removal)) => {
                    &&& valid_name(db@)
                    &&& final(self)@ == without_database(old(self)@, db@)
                    &&& files matches Some(names) && removals(removal.files@) == removed(
                        texts(names@),
                    ) && removal.count == stems(texts(names@), ".ndjson"@).len() && forall|
                        name: Seq<char>,
                        is_log: bool,
                    | #[trigger]
                        removals(removal.files@).contains((name, is_log)) <==> texts(
                            names@,
                        ).contains(name) && if is_log {
                            ".ndjson"@.is_suffix_of(name)
                        } else {
                            ".index.json"@.is_suffix_of(name) && !".ndjson"@.is_suffix_of(name)
                        }
                },
                Ok(None) => valid_name(db@) && files is None && final(self)@ == old(self)@,
                Err(e) => !valid_name(db@) && is_invalid_name(e, db@) && final(self)@ == old(self)@,
            },
    {
        match validate_name(db) {
            Err(e) => {
                return Err(e);
            },
            Ok(()) => {},
        }
        match files {
            None => Ok(None),
            Some(names) => {
                retain_handles(&mut self.handles, db);
                retain_collections(&mut self.indexes, db);
                let (files, count) = files_to_remove(names);
                proof {
                    assert forall|name: Seq<char>, is_log: bool| #[trigger]
                        removals(files@).contains((name, is_log)) <==> texts(names@).contains(name)
                            && if is_log {
                            ".ndjson"@.is_suffix_of(name)
                        } else {
                            ".index.json"@.is_suffix_of(name) && !".ndjson"@.is_suffix_of(name)
                        } by {
                        law_every_log_and_sidecar_goes(texts(names@), name);
                    }
                }
                Ok(Some(DatabaseRemoval { files, count }))
            },
        }
    }
}

} // verus!

//! What the engine guarantees across several calls.

use crate::document::{annotated, prints_well};
use crate::filter::passes_any;
use crate::index::{CollView, Place};
use crate::insertion::{Event, Insertion, Stage};
use crate::json::{member, plain, raw_marker, Json};
use crate::log::{log_records, readable, Fault, Line, Record};
use crate::reading::{index_matches, last_n, law_tail_is_the_last, matching, tailed};
use crate::sidecar::{
    indexable, loaded_file, loaded_files, loaded_indexes, named_fields, names_fields, DirFile,
    SidecarUpdate,
};
use crate::state::{
    index_at, indexed_fields, next_stage, next_state, with_index, without_collection,
    without_database, without_index, State,
};
use crate::writing::{
    all_compact, all_listed_alike, complete, doc_records, index_after_all,
    law_a_batch_adds_its_lines, law_indexes_follow_a_batch, law_read_gives_back_a_batch,
    lemma_records_append, lemma_same_fields, lines_of, reads_back,
};
use vstd::prelude::*;

verus! {

/// What the engine knows of a collection is what its log holds: where the collection is open, its
/// length; where it has indexes, what they list.
pub open spec fn tracks(state: State, place: Place, log: Seq<u8>) -> bool {
    &&& complete(log)
    &&& state.lengths.contains_key(place) ==> state.lengths[place] == log.len()
    &&& state.indexes.contains_key(place) ==> index_matches(state.indexes[place], log)
}

/// What the engine knows of a collection is the same in both states.
pub open spec fn same_at(a: State, b: State, place: Place) -> bool {
    &&& a.lengths.contains_key(place) == b.lengths.contains_key(place)
    &&& a.lengths.contains_key(place) ==> a.lengths[place] == b.lengths[place]
    &&& index_at(a, place) == index_at(b, place)
}

/// What the engine knows once the lines of an insertion are appended, and forced to the disk
/// where it asks for that.
pub open spec fn stored_state(state: State, ins: Insertion) -> State {
    let after = next_state(state, ins, Event::Appended);
    if state.syncs {
        next_state(after, ins.at(next_stage(state, ins, Event::Appended)), Event::Synced)
    } else {
        after
    }
}

/// All documents are read back from their text.
pub open spec fn all_read_back(docs: Seq<Json>) -> bool {
    forall|i: int| 0 <= i < docs.len() ==> reads_back(#[trigger] docs[i])
}

/// The documents that pass a filter.
pub open spec fn passing(docs: Seq<Json>, filter: Option<Map<Seq<char>, Json>>) -> Seq<Json>
    decreases docs.len(),
{
    if docs.len() == 0 {
        seq![]
    } else {
        let before = passing(docs.drop_last(), filter);
        if passes_any(docs.last(), filter) {
            before.push(docs.last())
        } else {
            before
        }
    }
}

// ---- writes ----

/// Once a log is opened, the engine knows its length.
pub proof fn law_opening_tracks(state: State, ins: Insertion, log: Seq<u8>)
    requires
        ins.stage == Stage::Open,
        tracks(state, ins.place(), log),
        log.len() <= u64::MAX,
    ensures
        ({
            let event = Event::Opened(log.len() as u64);
            let after = next_state(state, ins, event);
            &&& tracks(after, ins.place(), log)
            &&& after.lengths.contains_key(ins.place())
            &&& next_stage(state, ins, event) == Stage::Append(log.len() as u64)
        }),
{
}

/// An insertion is tracked: with the lines of its documents appended to the log, the engine knows
/// the new length, and the indexes list the documents too, if the indexed fields have the same text
/// in the documents as in their lines. Other collections are not touched.
pub proof fn law_insertion_is_tracked(state: State, ins: Insertion, log: Seq<u8>, other: Place)
    requires
        tracks(state, ins.place(), log),
        log.len() + lines_of(ins.documents()).len() <= u64::MAX,
        ins.stage == Stage::Append(log.len() as u64),
        all_compact(ins.documents()),
        all_listed_alike(ins.documents(), indexed_fields(state, ins.place())),
    ensures
        tracks(stored_state(state, ins), ins.place(), log + lines_of(ins.documents())),
        other != ins.place() ==> same_at(stored_state(state, ins), state, other),
        indexed_fields(stored_state(state, ins), ins.place()) == indexed_fields(
            state,
            ins.place(),
        ),
{
    let docs = ins.documents();
    let place = ins.place();
    law_a_batch_adds_its_lines(log, docs);
    if state.indexes.contains_key(place) {
        law_indexes_follow_a_batch(state.indexes[place], log, docs);
        lemma_same_fields(state.indexes[place], docs, log.len() as int);
    }
    assert(log.len() as u64 == log.len());
}

/// A step that failed changes nothing.
pub proof fn law_failure_changes_nothing(state: State, ins: Insertion, e: std::io::Error)
    ensures
        next_state(state, ins, Event::Failed(e)) == state,
{
}

/// What is appended to a complete log changes nothing of what it held.
pub proof fn law_appending_keeps_the_lines(log: Seq<u8>, more: Seq<u8>)
    requires
        complete(log),
    ensures
        log_records(log).is_prefix_of(log_records(log + more)),
{
    lemma_records_append(log, more, 0);
    let all = log_records(log + more);
    assert(all.take(log_records(log).len() as int) =~= log_records(log));
}

proof fn lemma_lines_concat(a: Seq<Json>, b: Seq<Json>)
    ensures
        lines_of(a + b) == lines_of(a) + lines_of(b),
    decreases b.len(),
{
    if b.len() == 0 {
        assert(a + b =~= a);
        assert(lines_of(a) + lines_of(b) =~= lines_of(a));
    } else {
        lemma_lines_concat(a, b.drop_last());
        assert((a + b).drop_last() =~= a + b.drop_last());
        assert(lines_of(a + b) =~= lines_of(a) + lines_of(b));
    }
}

/// A batch is stored as its parts would be, one after the other: the same bytes, and the same
/// entries in the indexes.
pub proof fn law_a_batch_is_its_parts(index: CollView, a: Seq<Json>, b: Seq<Json>, base: int)
    ensures
        lines_of(a + b) == lines_of(a) + lines_of(b),
        index_after_all(index, a + b, base) == index_after_all(
            index_after_all(index, a, base),
            b,
            base + lines_of(a).len(),
        ),
    decreases b.len(),
{
    lemma_lines_concat(a, b);
    if b.len() == 0 {
        assert(a + b =~= a);
    } else {
        law_a_batch_is_its_parts(index, a, b.drop_last(), base);
        assert((a + b).drop_last() =~= a + b.drop_last());
        lemma_lines_concat(a, b.drop_last());
    }
}

/// A document without floating point numbers, with no more than 127 levels of nesting, and without
/// a member that marks raw text, is read back from its line as what is stored for it.
pub proof fn law_plain_documents_are_read_back(
    j: Json,
    id: Seq<char>,
    ts: Seq<char>,
)
    requires
        plain(j, 127),
        prints_well(annotated(j, id, ts)),
    ensures
        reads_back(annotated(j, id, ts)),
{
    match j {
        Json::Object(m) => {
            let stored = m.insert("_id"@, Json::Str(id)).insert("_ts"@, Json::Str(ts));
            reveal_strlit("_id");
            reveal_strlit("_ts");
            reveal_strlit("$serde_json::private::RawValue");
            assert("_id"@.len() != raw_marker().len());
            assert("_ts"@.len() != raw_marker().len());
            assert forall|k: Seq<char>| stored.contains_key(k) implies plain(
                #[trigger] stored[k],
                126,
            ) by {
                if k != "_id"@ && k != "_ts"@ {
                    assert(stored[k] == m[k]);
                }
            }
        },
        _ => {},
    }
}

/// A stored object holds its identifier and its time, and otherwise what was to be stored.
pub proof fn law_stored_objects_keep_their_members(
    members: Map<Seq<char>, Json>,
    id: Seq<char>,
    ts: Seq<char>,
    name: Seq<char>,
)
    ensures
        member(annotated(Json::Object(members), id, ts), "_id"@) == Some(Json::Str(id)),
        member(annotated(Json::Object(members), id, ts), "_ts"@) == Some(Json::Str(ts)),
        name != "_id"@ && name != "_ts"@ ==> member(
            annotated(Json::Object(members), id, ts),
            name,
        ) == member(Json::Object(members), name),
{
    reveal_strlit("_id");
    reveal_strlit("_ts");
    assert("_id"@[1] != "_ts"@[1]);
}

// ---- reads after writes ----

pub(crate) proof fn lemma_matching_push(
    lines: Seq<Record>,
    last: Record,
    filter: Option<Map<Seq<char>, Json>>,
)
    ensures
        matching(lines.push(last), filter) == match last.line {
            Line::Doc(j) => if passes_any(j, filter) {
                matching(lines, filter).push(j)
            } else {
                matching(lines, filter)
            },
            _ => matching(lines, filter),
        },
    decreases lines.len(),
{
    let all = lines.push(last);
    if lines.len() == 0 {
        assert(all.drop_first() =~= seq![]);
        assert(matching(all.drop_first(), filter) =~= seq![]);
        match last.line {
            Line::Doc(j) => {
                assert(seq![j] + Seq::<Json>::empty() =~= Seq::<Json>::empty().push(j));
            },
            _ => {},
        }
    } else {
        lemma_matching_push(lines.drop_first(), last, filter);
        assert(all.drop_first() =~= lines.drop_first().push(last));
        let rest = matching(lines.drop_first(), filter);
        match (lines[0].line, last.line) {
            (Line::Doc(i), Line::Doc(j)) => {
                assert(seq![i] + rest.push(j) =~= (seq![i] + rest).push(j));
            },
            _ => {},
        }
    }
}

/// What was inserted is found: the documents that pass a filter are those that passed before, and
/// after them the new ones that pass, in the order in which they were inserted.
pub proof fn law_inserted_documents_are_found(
    log: Seq<u8>,
    docs: Seq<Json>,
    filter: Option<Map<Seq<char>, Json>>,
)
    requires
        complete(log),
        all_read_back(docs),
    ensures
        matching(log_records(log + lines_of(docs)), filter) == matching(log_records(log), filter)
            + passing(docs, filter),
        readable(log_records(log)) ==> readable(log_records(log + lines_of(docs))),
    decreases docs.len(),
{
    law_read_gives_back_a_batch(log, docs);
    let before = log_records(log);
    if docs.len() == 0 {
        assert(log + lines_of(docs) =~= log);
        assert(matching(before, filter) + passing(docs, filter) =~= matching(before, filter));
    } else {
        let fewer = docs.drop_last();
        law_inserted_documents_are_found(log, fewer, filter);
        law_read_gives_back_a_batch(log, fewer);
        let base = log.len() as int;
        let last = Record {
            offset: base + lines_of(fewer).len(),
            line: Line::Doc(docs.last()),
        };
        assert(before + doc_records(docs, base) =~= (before + doc_records(fewer, base)).push(last));
        lemma_matching_push(before + doc_records(fewer, base), last, filter);
        assert(matching(before + doc_records(docs, base), filter) =~= matching(before, filter)
            + passing(docs, filter));
    }
}

/// Without a filter every document passes.
proof fn lemma_all_pass(docs: Seq<Json>)
    ensures
        passing(docs, None) == docs,
    decreases docs.len(),
{
    if docs.len() > 0 {
        lemma_all_pass(docs.drop_last());
        assert(docs =~= docs.drop_last().push(docs.last()));
    } else {
        assert(docs =~= seq![]);
    }
}

/// The documents of the last insertion are at the end of the log.
pub proof fn law_tail_gives_back_an_insertion(log: Seq<u8>, docs: Seq<Json>)
    requires
        complete(log),
        readable(log_records(log)),
        all_read_back(docs),
    ensures
        tailed(log + lines_of(docs), docs.len(), None) == Ok::<Seq<Json>, Fault>(docs),
{
    law_inserted_documents_are_found(log, docs, None);
    law_read_gives_back_a_batch(log, docs);
    lemma_all_pass(docs);
    law_tail_is_the_last(log + lines_of(docs), docs.len(), None);
    let all = matching(log_records(log), None) + docs;
    assert(last_n(all, docs.len()) =~= docs);
}

// ---- indexes ----

/// A field that gets indexed is listed as indexed, along with those before it; its index lists
/// what the log holds. Other collections are not touched.
pub proof fn law_created_index_is_listed(
    state: State,
    place: Place,
    field: Seq<char>,
    log: Seq<u8>,
    other: Place,
)
    ensures
        indexed_fields(with_index(state, place, field, log), place) == indexed_fields(
            state,
            place,
        ).insert(field),
        tracks(state, place, log) ==> tracks(with_index(state, place, field, log), place, log),
        other != place ==> same_at(with_index(state, place, field, log), state, other),
{
    let after = with_index(state, place, field, log);
    assert(indexed_fields(after, place) =~= indexed_fields(state, place).insert(field));
}

/// A field whose index is dropped is indexed no more; the other fields are, as before. Other
/// collections are not touched.
pub proof fn law_dropped_index_is_gone(
    state: State,
    place: Place,
    field: Seq<char>,
    log: Seq<u8>,
    other: Place,
)
    ensures
        indexed_fields(without_index(state, place, field), place) == indexed_fields(
            state,
            place,
        ).remove(field),
        tracks(state, place, log) ==> tracks(without_index(state, place, field), place, log),
        other != place ==> same_at(without_index(state, place, field), state, other),
{
    let after = without_index(state, place, field);
    assert(indexed_fields(after, place) =~= indexed_fields(state, place).remove(field));
}

/// Indexes survive a restart: the sidecar that was saved, read again with a log that is text,
/// gives the collection the same indexed fields, and indexes that list what the log holds.
pub proof fn law_indexes_survive_a_restart(
    update: SidecarUpdate,
    place: Place,
    fields: Set<Seq<char>>,
    file: DirFile,
    log: Seq<u8>,
)
    requires
        names_fields(update, place, fields),
        fields != Set::<Seq<char>>::empty(),
        file.db@ == update.path.dir@,
        file.file@ == update.path.file@,
        file.content == update.content,
        indexable(file.data) == Some(log),
    ensures
        loaded_file(file) matches Some(loaded) && loaded.0 == place && loaded.1.dom() == fields
            && index_matches(loaded.1, log),
{
    let suffix = ".index.json"@;
    let name = file.file@;
    assert(name == place.1 + suffix);
    assert(suffix =~= name.skip(place.1.len() as int));
    assert(name.take(name.len() - suffix.len()) =~= place.1);
    let text = update.content.unwrap();
    let list = named_fields(text@).unwrap();
    let index = loaded_indexes(list, file.data);
    assert(index.dom() =~= fields);
}

/// At the start each sidecar gives its collection its indexes, unless a later file does.
pub proof fn law_each_sidecar_is_loaded(files: Seq<DirFile>, i: int)
    requires
        0 <= i < files.len(),
        loaded_file(files[i]) is Some,
        forall|j: int|
            i < j < files.len() ==> (loaded_file(#[trigger] files[j]) matches Some(later)
                ==> later.0 != loaded_file(files[i]).unwrap().0),
    ensures
        loaded_files(files).contains_key(loaded_file(files[i]).unwrap().0),
        loaded_files(files)[loaded_file(files[i]).unwrap().0] == loaded_file(files[i]).unwrap().1,
    decreases files.len(),
{
    if i < files.len() - 1 {
        let fewer = files.drop_last();
        assert forall|j: int| i < j < fewer.len() implies (loaded_file(
            #[trigger] fewer[j],
        ) matches Some(later) ==> later.0 != loaded_file(fewer[i]).unwrap().0) by {
            assert(fewer[j] == files[j]);
        }
        law_each_sidecar_is_loaded(fewer, i);
        assert(files[files.len() - 1] == files.last());
    }
}

// ---- dropping ----

/// A dropped collection is forgotten, and no other is.
pub proof fn law_dropping_a_collection_spares_others(state: State, place: Place, other: Place)
    ensures
        !without_collection(state, place).lengths.contains_key(place),
        index_at(without_collection(state, place), place) is None,
        other != place ==> same_at(without_collection(state, place), state, other),
{
}

/// The collections of a dropped database are forgotten, and no others are.
pub proof fn law_dropping_a_database_spares_others(state: State, db: Seq<char>, place: Place)
    ensures
        place.0 == db ==> !without_database(state, db).lengths.contains_key(place) && index_at(
            without_database(state, db),
            place,
        ) is None,
        place.0 != db ==> same_at(without_database(state, db), state, place),
{
}

} // verus!

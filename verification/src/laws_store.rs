//! Laws of what is stored: what becomes of a document, when an insertion is refused, and what each
//! step makes of what the engine knows.

use crate::document::{
    annotated, bytes_hex, id_text, is_id, nanos_at, nanos_in, prints_well, running, since_epoch,
};
use crate::error::EngineError;
use crate::ids::{is_hex_digit, law_id_shape, lemma_hex_shape};
use crate::index::Place;
use crate::insertion::{
    fits, is_annotated, is_excess, joins, Batch, Event, Excess, Insertion, Stage,
};
use crate::json::{json_of, json_parse, json_text, member, plain, Json};
use crate::laws_logs::law_documents_take_a_line_each;
use crate::log::{field_index, log_records};
use crate::name::valid_name;
use crate::state::{
    all_join, expected, index_at, indexed_fields, next_stage, next_state, refused, refused_field,
    starts, with_index, without_collection, without_database, without_index, State,
};
use crate::text::{decimal, hex, is_whitespace};
use crate::writing::{index_after_all, lines_of};
use serde_json::Value;
use std::time::SystemTime;
use vstd::prelude::*;
use vstd::utf8::encode_utf8;

verus! {

// ---- documents ----

/// What is stored for an object is the object with two members set: `_id` is the identifier and
/// `_ts` the time in decimal digits. Every other member is kept as it is, and no other is added.
/// What is no object is stored as it is.
pub proof fn law_an_object_is_stored_with_all_its_members(
    members: Map<Seq<char>, Json>,
    id: Seq<char>,
    doc: Json,
    name: Seq<char>,
)
    requires
        is_annotated(Json::Object(members), id, doc),
    ensures
        member(doc, "_id"@) == Some(Json::Str(id)),
        exists|t: SystemTime|
            member(doc, "_ts"@) == Some(Json::Str(#[trigger] decimal(nanos_at(t) as nat))),
        name != "_id"@ && name != "_ts"@ ==> member(doc, name) == member(
            Json::Object(members),
            name,
        ),
        doc matches Json::Object(stored) && (stored.contains_key(name) <==> members.contains_key(
            name,
        ) || name == "_id"@ || name == "_ts"@),
        doc matches Json::Object(stored) && (members.contains_key(name) && name != "_id"@ && name
            != "_ts"@ ==> stored[name] == members[name]),
{
    reveal_strlit("_id");
    reveal_strlit("_ts");
    assert("_id"@[1] != "_ts"@[1]);
    let t = choose|t: SystemTime|
        doc == #[trigger] annotated(Json::Object(members), id, decimal(nanos_at(t) as nat));
    assert(member(doc, "_ts"@) == Some(Json::Str(decimal(nanos_at(t) as nat))));
}

/// What is no object is stored as it is.
pub proof fn law_other_values_are_stored_as_they_are(j: Json, id: Seq<char>, doc: Json)
    requires
        is_annotated(j, id, doc),
        !(j is Object),
    ensures
        doc == j,
{
}

/// A document that gets a given identifier and time is stored with these, and otherwise as it is.
pub proof fn law_given_marks_are_set(
    members: Map<Seq<char>, Json>,
    id: Seq<char>,
    ts: Seq<char>,
    j: Json,
)
    requires
        !(j is Object),
    ensures
        annotated(Json::Object(members), id, ts) matches Json::Object(stored) && {
            &&& stored.dom() == members.dom().insert("_id"@).insert("_ts"@)
            &&& stored["_id"@] == Json::Str(id)
            &&& stored["_ts"@] == Json::Str(ts)
            &&& forall|name: Seq<char>|
                members.contains_key(name) && name != "_id"@ && name != "_ts"@ ==> stored[name]
                    == #[trigger] members[name]
        },
        annotated(j, id, ts) == j,
{
    reveal_strlit("_id");
    reveal_strlit("_ts");
    assert("_id"@[1] != "_ts"@[1]);
    let stored = annotated(Json::Object(members), id, ts)->Object_0;
    assert(stored.dom() =~= members.dom().insert("_id"@).insert("_ts"@));
}

/// The time of a document is what lies between the start of 1970 and the time, in nanoseconds; a
/// time before that counts as zero.
pub proof fn law_times_are_nanoseconds(t: SystemTime)
    ensures
        match since_epoch(t) {
            Some(d) => nanos_at(t) == nanos_in(d),
            None => nanos_at(t) == 0,
        },
{
}

/// An identifier is 36 digits: sixteen of a time in nanoseconds, four of its running number, and
/// sixteen of eight bytes.
pub proof fn law_an_identifier_holds_its_number(id: Seq<char>, number: u64)
    requires
        is_id(id, number),
    ensures
        id.len() == 36,
        exists|t: SystemTime| id.take(16) == hex(#[trigger] nanos_at(t) as u64 as nat, 16),
        id.subrange(16, 20) == hex(number as nat, 4),
        exists|random: Seq<u8>| random.len() == 8 && id.skip(20) == #[trigger] bytes_hex(random),
        forall|i: int| 0 <= i < 36 ==> is_hex_digit(#[trigger] id[i]),
{
    let (t, random) = choose|t: SystemTime, random: Seq<u8>|
        random.len() == 8 && id == #[trigger] id_text(nanos_at(t) as u64, number, random);
    let time = nanos_at(t) as u64;
    law_id_shape(time, number, random);
    lemma_hex_shape(time as nat, 16);
    lemma_hex_shape(number as nat, 4);
    assert(id.take(16) =~= hex(time as nat, 16));
    assert(id.subrange(16, 20) =~= hex(number as nat, 4));
    assert(id.skip(20) =~= bytes_hex(random));
}

/// Bytes are written one after the other, as two digits each.
pub proof fn law_bytes_take_two_digits_each(bytes: Seq<u8>, byte: u8)
    ensures
        bytes_hex(Seq::empty()).len() == 0,
        bytes_hex(bytes.push(byte)) == bytes_hex(bytes) + hex(byte as nat, 2),
{
    assert(bytes.push(byte).drop_last() =~= bytes);
}

/// An identifier is put together from the digits of its time, its number and its bytes.
pub proof fn law_an_identifier_is_put_together(time: u64, number: u64, random: Seq<u8>)
    ensures
        id_text(time, number, random) == hex(time as nat, 16) + hex(number as nat, 4) + bytes_hex(
            random,
        ),
{
}

/// The digits that an identifier is made of.
pub proof fn law_hexadecimal_digits(c: char)
    ensures
        is_hex_digit(c) <==> "0123456789abcdef"@.contains(c),
{
    reveal_strlit("0123456789abcdef");
    let all = "0123456789abcdef"@;
    assert(all[0] == '0' && all[1] == '1' && all[2] == '2' && all[3] == '3' && all[4] == '4'
        && all[5] == '5' && all[6] == '6' && all[7] == '7' && all[8] == '8' && all[9] == '9'
        && all[10] == 'a' && all[11] == 'b' && all[12] == 'c' && all[13] == 'd' && all[14] == 'e'
        && all[15] == 'f');
}

/// Running numbers follow each other, and after the largest of four hexadecimal digits comes zero.
pub proof fn law_running_numbers_follow(first: u16, count: nat)
    ensures
        running(first, 0) == first,
        running(first, count) < 0xffff ==> running(first, count + 1) == running(first, count) + 1,
        running(first, count) == 0xffff ==> running(first, count + 1) == 0,
{
    let at: int = first + count;
    let m: int = 0x1_0000;
    assert(at % m < m - 1 ==> (at + 1) % m == at % m + 1) by (nonlinear_arith)
        requires
            at >= 0,
            m == 0x1_0000,
    ;
    assert(at % m == m - 1 ==> (at + 1) % m == 0) by (nonlinear_arith)
        requires
            at >= 0,
            m == 0x1_0000,
    ;
}

/// A document that prints well stands in one line, starts and ends with a visible character, and
/// is read back where it is plain.
pub proof fn law_printing_well(j: Json)
    requires
        prints_well(j),
    ensures
        json_text(j).len() > 0,
        !json_text(j).contains('\n'),
        !is_whitespace(json_text(j)[0]),
        !is_whitespace(json_text(j).last()),
        plain(j, 127) ==> json_parse(json_text(j)) == Some(j),
{
}

// ---- sizes ----

/// A document joins a batch where its text takes at most 16 MB and all lines together take at most
/// 128 MB; the batch then holds it last. The document's own length is looked at first.
pub proof fn law_documents_join_up_to_a_size(before: Seq<Json>, doc: Json)
    ensures
        ({
            let bytes = encode_utf8(json_text(doc)).len();
            let lines = lines_of(before).len() + bytes + 1;
            &&& fits(doc) <==> bytes <= 16 * 1024 * 1024
            &&& bytes > 16 * 1024 * 1024 ==> joins(before, doc) == Err::<Seq<Json>, Excess>(
                Excess::Document,
            )
            &&& bytes <= 16 * 1024 * 1024 && lines > 128 * 1024 * 1024 ==> joins(before, doc)
                == Err::<Seq<Json>, Excess>(Excess::Batch)
            &&& bytes <= 16 * 1024 * 1024 && lines <= 128 * 1024 * 1024 ==> joins(before, doc)
                == Ok::<Seq<Json>, Excess>(before.push(doc))
        }),
{
    law_documents_take_a_line_each(before, doc);
}

/// Documents fit into a batch where each takes at most 16 MB and all their lines take at most
/// 128 MB.
pub proof fn law_a_batch_fits(docs: Seq<Json>)
    ensures
        all_join(docs) ==> lines_of(docs).len() <= 128 * 1024 * 1024,
        all_join(docs) ==> forall|i: int|
            0 <= i < docs.len() ==> encode_utf8(json_text(#[trigger] docs[i])).len() <= 16 * 1024
                * 1024,
        lines_of(docs).len() <= 128 * 1024 * 1024 && (forall|i: int|
            0 <= i < docs.len() ==> encode_utf8(json_text(#[trigger] docs[i])).len() <= 16 * 1024
                * 1024) ==> all_join(docs),
{
    if all_join(docs) && docs.len() > 0 {
        let last = docs.len() - 1;
        assert(joins(docs.take(last), docs[last]) is Ok);
        assert(docs.take(last).push(docs[last]) =~= docs);
    }
    if all_join(docs) {
        assert forall|i: int| 0 <= i < docs.len() implies encode_utf8(
            json_text(#[trigger] docs[i]),
        ).len() <= 16 * 1024 * 1024 by {
            assert(joins(docs.take(i), docs[i]) is Ok);
        }
    }
    if lines_of(docs).len() <= 128 * 1024 * 1024 && forall|i: int|
        0 <= i < docs.len() ==> encode_utf8(json_text(#[trigger] docs[i])).len() <= 16 * 1024
            * 1024 {
        assert forall|i: int| 0 <= i < docs.len() implies joins(
            docs.take(i),
            #[trigger] docs[i],
        ) is Ok by {
            lemma_lines_of_a_part(docs, i + 1);
            assert(docs.take(i).push(docs[i]) =~= docs.take(i + 1));
        }
    }
}

proof fn lemma_lines_of_a_part(docs: Seq<Json>, i: int)
    requires
        0 <= i <= docs.len(),
    ensures
        lines_of(docs.take(i)).len() <= lines_of(docs).len(),
    decreases docs.len(),
{
    if i == docs.len() {
        assert(docs.take(i) =~= docs);
    } else {
        lemma_lines_of_a_part(docs.drop_last(), i);
        assert(docs.drop_last().take(i) =~= docs.take(i));
    }
}

/// What was too long is told apart.
pub proof fn law_excess_is_told_apart(e: EngineError)
    ensures
        is_excess(e, Excess::Document) <==> e is TooLarge,
        is_excess(e, Excess::Batch) <==> e is BatchTooLarge,
{
}

// ---- insertions ----

/// The documents of an insertion that has started are those that were handed in, in their order
/// and none left out: each has an identifier of its own with the next running number, and holds
/// every member of what was handed in but for the two that are set.
pub proof fn law_an_insertion_holds_what_was_handed_in(
    state: State,
    db: Seq<char>,
    coll: Seq<char>,
    docs: Seq<Value>,
    first: u16,
    ids: Seq<Seq<char>>,
    stored: Seq<Json>,
    ins: Insertion,
    i: int,
    name: Seq<char>,
)
    requires
        starts(state, (db, coll), docs, first, ids, stored, Ok(ins)),
        0 <= i < docs.len(),
    ensures
        ins.db@ == db,
        ins.coll@ == coll,
        ins.batch.documents().len() == docs.len(),
        ins.documents() == ins.batch.documents(),
        ins.batch.id_texts().len() == docs.len(),
        is_id(ins.batch.id_texts()[i], running(first, i as nat) as u64),
        ({
            let doc = ins.batch.documents()[i];
            let given = json_of(docs[i]);
            &&& !(given is Object) ==> doc == given
            &&& given is Object ==> {
                &&& doc is Object
                &&& member(doc, "_id"@) == Some(Json::Str(ins.batch.id_texts()[i]))
                &&& member(doc, "_ts"@) matches Some(ts) && ts is Str
                &&& name != "_id"@ && name != "_ts"@ ==> member(doc, name) == member(given, name)
            }
        }),
{
    let some = docs.take(stored.len() as int);
    assert(some =~= docs);
    assert(is_id(ids[i], running(first, i as nat) as u64));
    assert(is_annotated(json_of(docs[i]), ids[i], stored[i]));
    if let Json::Object(members) = json_of(docs[i]) {
        law_an_object_is_stored_with_all_its_members(members, ids[i], stored[i], name);
    }
}

/// An insertion that has started may do so: the names are names, unless there is nothing to
/// insert, and the documents are not too long. What is to be done first is to open the log, or to
/// append where it ends; nothing is to be done without documents.
pub proof fn law_an_insertion_may_start(
    state: State,
    db: Seq<char>,
    coll: Seq<char>,
    docs: Seq<Value>,
    first: u16,
    ids: Seq<Seq<char>>,
    stored: Seq<Json>,
    ins: Insertion,
)
    requires
        starts(state, (db, coll), docs, first, ids, stored, Ok(ins)),
    ensures
        docs.len() > 0 ==> valid_name(db) && valid_name(coll),
        lines_of(ins.batch.documents()).len() <= 128 * 1024 * 1024,
        forall|i: int|
            0 <= i < ins.batch.documents().len() ==> encode_utf8(
                json_text(#[trigger] ins.batch.documents()[i]),
            ).len() <= 16 * 1024 * 1024,
        docs.len() == 0 ==> ins.stage is Done,
        docs.len() > 0 && state.lengths.contains_key((db, coll)) ==> ins.stage == Stage::Append(
            state.lengths[(db, coll)],
        ),
        docs.len() > 0 && !state.lengths.contains_key((db, coll)) ==> ins.stage is Open,
{
    law_a_batch_fits(stored);
}

/// An insertion that is refused had a document that took more than 16 MB, or documents that took
/// more than 128 MB together, or a name that is none; the error says which. Sizes are looked at
/// first, and of two bad names the first is told.
pub proof fn law_why_an_insertion_is_refused(
    state: State,
    db: Seq<char>,
    coll: Seq<char>,
    docs: Seq<Value>,
    first: u16,
    ids: Seq<Seq<char>>,
    stored: Seq<Json>,
    e: EngineError,
)
    requires
        starts(state, (db, coll), docs, first, ids, stored, Err(e)),
    ensures
        0 < stored.len() <= docs.len(),
        ids.len() == stored.len(),
        e is TooLarge <==> encode_utf8(json_text(stored.last())).len() > 16 * 1024 * 1024,
        e is BatchTooLarge <==> encode_utf8(json_text(stored.last())).len() <= 16 * 1024 * 1024
            && lines_of(stored).len() > 128 * 1024 * 1024,
        e is TooLarge || e is BatchTooLarge || e is InvalidName,
        e matches EngineError::InvalidName(name) ==> stored.len() == docs.len() && (!valid_name(db)
            && name@ == db || valid_name(db) && !valid_name(coll) && name@ == coll),
        lines_of(stored.drop_last()).len() <= 128 * 1024 * 1024,
        forall|i: int|
            0 <= i < stored.len() - 1 ==> encode_utf8(json_text(#[trigger] stored[i])).len() <= 16
                * 1024 * 1024,
        forall|i: int|
            0 <= i < stored.len() ==> is_annotated(
                json_of(docs[i]),
                #[trigger] ids[i],
                stored[i],
            ) && is_id(ids[i], running(first, i as nat) as u64),
{
    let before = stored.drop_last();
    assert(before.push(stored.last()) =~= stored);
    law_documents_join_up_to_a_size(before, stored.last());
    law_documents_take_a_line_each(before, stored.last());
    law_a_batch_fits(before);
    assert forall|i: int| 0 <= i < stored.len() - 1 implies encode_utf8(
        json_text(#[trigger] stored[i]),
    ).len() <= 16 * 1024 * 1024 by {
        assert(before[i] == stored[i]);
    }
    let some = docs.take(stored.len() as int);
    assert forall|i: int| 0 <= i < stored.len() implies is_annotated(
        json_of(docs[i]),
        #[trigger] ids[i],
        stored[i],
    ) && is_id(ids[i], running(first, i as nat) as u64) by {
        assert(some[i] == docs[i]);
    }
}

/// Of two names, and of three, the first that is none is refused; good names are not.
pub proof fn law_the_first_bad_name_is_refused(db: Seq<char>, coll: Seq<char>, field: Seq<char>)
    ensures
        refused(db, coll) is None <==> valid_name(db) && valid_name(coll),
        !valid_name(db) ==> refused(db, coll) == Some(db),
        valid_name(db) && !valid_name(coll) ==> refused(db, coll) == Some(coll),
        refused_field(db, coll, field) is None <==> valid_name(db) && valid_name(coll)
            && valid_name(field),
        !valid_name(db) ==> refused_field(db, coll, field) == Some(db),
        valid_name(db) && !valid_name(coll) ==> refused_field(db, coll, field) == Some(coll),
        valid_name(db) && valid_name(coll) && !valid_name(field) ==> refused_field(db, coll, field)
            == Some(field),
{
}

/// The stages wait for what comes of them: an opened log, appended lines, a log on the disk, or a
/// failure. Nothing is waited for at the end.
pub proof fn law_stages_wait_for_their_events(length: u64, e: std::io::Error)
    ensures
        expected(Stage::Open, Event::Opened(length)),
        expected(Stage::Append(length), Event::Appended),
        expected(Stage::Sync(length), Event::Synced),
        expected(Stage::Open, Event::Failed(e)),
        expected(Stage::Append(length), Event::Failed(e)),
        expected(Stage::Sync(length), Event::Failed(e)),
        !expected(Stage::Open, Event::Appended) && !expected(Stage::Open, Event::Synced),
        !expected(Stage::Append(length), Event::Opened(length)) && !expected(
            Stage::Append(length),
            Event::Synced,
        ),
        !expected(Stage::Sync(length), Event::Opened(length)) && !expected(
            Stage::Sync(length),
            Event::Appended,
        ),
        forall|event: Event| !#[trigger] expected(Stage::Done, event),
{
}

/// A log that is opened is known by its length, unless its length is known already; the lines are
/// then to be appended at its end. Indexes and other collections stay as they are.
pub proof fn law_opening_a_log(
    state: State,
    ins: Insertion,
    length: u64,
    other: Place,
)
    requires
        ins.stage is Open,
    ensures
        ({
            let place = (ins.db@, ins.coll@);
            let after = next_state(state, ins, Event::Opened(length));
            let known = state.lengths.contains_key(place);
            &&& after.syncs == state.syncs
            &&& after.indexes == state.indexes
            &&& after.lengths.contains_key(place)
            &&& known ==> after.lengths[place] == state.lengths[place]
            &&& !known ==> after.lengths[place] == length
            &&& other != place ==> (after.lengths.contains_key(other)
                <==> state.lengths.contains_key(other))
            &&& other != place && state.lengths.contains_key(other) ==> after.lengths[other]
                == state.lengths[other]
            &&& next_stage(state, ins, Event::Opened(length)) == Stage::Append(
                after.lengths[place],
            )
        }),
{
}

/// Lines that are appended make the log longer by their bytes. Without syncs the documents are
/// listed in the indexes of their collection, if it has any, and all is done; with syncs the log
/// is to be forced to the disk first. Other collections stay as they are.
pub proof fn law_appending_lines(
    state: State,
    ins: Insertion,
    base: u64,
    other: Place,
)
    requires
        ins.stage == Stage::Append(base),
    ensures
        ({
            let place = (ins.db@, ins.coll@);
            let docs = ins.batch.documents();
            let after = next_state(state, ins, Event::Appended);
            &&& after.syncs == state.syncs
            &&& after.lengths == state.lengths.insert(place, (base + lines_of(docs).len()) as u64)
            &&& after.indexes.dom() == state.indexes.dom()
            &&& other != place ==> after.indexes[other] == state.indexes[other]
            &&& state.indexes.contains_key(place) && !state.syncs ==> after.indexes[place]
                == index_after_all(state.indexes[place], docs, base as int)
            &&& state.syncs ==> after.indexes == state.indexes
            &&& state.syncs ==> next_stage(state, ins, Event::Appended) == Stage::Sync(base)
            &&& !state.syncs ==> next_stage(state, ins, Event::Appended) is Done
        }),
{
    let after = next_state(state, ins, Event::Appended);
    assert(after.indexes.dom() =~= state.indexes.dom());
}

/// Once the log is on the disk the documents are listed in the indexes of their collection, if it
/// has any, and all is done.
pub proof fn law_syncing_a_log(
    state: State,
    ins: Insertion,
    base: u64,
    other: Place,
)
    requires
        ins.stage == Stage::Sync(base),
    ensures
        ({
            let place = (ins.db@, ins.coll@);
            let after = next_state(state, ins, Event::Synced);
            &&& after.syncs == state.syncs
            &&& after.lengths == state.lengths
            &&& after.indexes.dom() == state.indexes.dom()
            &&& other != place ==> after.indexes[other] == state.indexes[other]
            &&& state.indexes.contains_key(place) ==> after.indexes[place] == index_after_all(
                state.indexes[place],
                ins.batch.documents(),
                base as int,
            )
            &&& next_stage(state, ins, Event::Synced) is Done
        }),
{
    let after = next_state(state, ins, Event::Synced);
    assert(after.indexes.dom() =~= state.indexes.dom());
}

/// An insertion that comes to another stage keeps its place and its documents.
pub proof fn law_stages_keep_the_documents(ins: Insertion, stage: Stage)
    ensures
        ins.at(stage).stage == stage,
        ins.at(stage).db == ins.db,
        ins.at(stage).coll == ins.coll,
        ins.at(stage).batch == ins.batch,
        ins.place() == (ins.db@, ins.coll@),
        ins.documents() == ins.batch.documents(),
{
}

// ---- indexes ----

/// The indexes of a collection, and the fields that have one, are those that the engine knows.
pub proof fn law_known_indexes(state: State, place: Place, field: Seq<char>)
    ensures
        state.indexes.contains_key(place) ==> index_at(state, place) == Some(state.indexes[place]),
        !state.indexes.contains_key(place) ==> index_at(state, place) is None,
        indexed_fields(state, place).contains(field) <==> state.indexes.contains_key(place)
            && state.indexes[place].contains_key(field),
{
}

/// Indexing a field adds its index over the log. All other indexes, lengths and collections stay
/// as they are.
pub proof fn law_indexing_a_field(
    state: State,
    place: Place,
    field: Seq<char>,
    data: Seq<u8>,
    other: Place,
    another: Seq<char>,
)
    ensures
        ({
            let after = with_index(state, place, field, data);
            let had = state.indexes.contains_key(place)
                && state.indexes[place].contains_key(another);
            &&& after.syncs == state.syncs
            &&& after.lengths == state.lengths
            &&& after.indexes.contains_key(place)
            &&& after.indexes[place].contains_key(field)
            &&& after.indexes[place][field] == field_index(log_records(data), field)
            &&& another != field ==> (after.indexes[place].contains_key(another) <==> had)
            &&& another != field && had ==> after.indexes[place][another]
                == state.indexes[place][another]
            &&& other != place ==> (after.indexes.contains_key(other)
                <==> state.indexes.contains_key(other))
            &&& other != place ==> after.indexes[other] == state.indexes[other]
        }),
{
}

/// Dropping an index takes that index away and nothing else.
pub proof fn law_dropping_an_index(
    state: State,
    place: Place,
    field: Seq<char>,
    other: Place,
    another: Seq<char>,
)
    ensures
        ({
            let after = without_index(state, place, field);
            let had = state.indexes.contains_key(place)
                && state.indexes[place].contains_key(another);
            &&& after.syncs == state.syncs
            &&& after.lengths == state.lengths
            &&& after.indexes.dom() == state.indexes.dom()
            &&& after.indexes.contains_key(place) ==> !after.indexes[place].contains_key(field)
            &&& after.indexes.contains_key(place) && another != field ==> (
            after.indexes[place].contains_key(another) <==> had)
            &&& another != field && had ==> after.indexes[place][another]
                == state.indexes[place][another]
            &&& other != place ==> after.indexes[other] == state.indexes[other]
        }),
{
    let after = without_index(state, place, field);
    assert(after.indexes.dom() =~= state.indexes.dom());
}

/// Dropping a collection takes away its length and its indexes, and nothing of any other.
pub proof fn law_dropping_a_collection(state: State, place: Place, other: Place)
    ensures
        ({
            let after = without_collection(state, place);
            &&& after.syncs == state.syncs
            &&& !after.lengths.contains_key(place) && !after.indexes.contains_key(place)
            &&& other != place ==> {
                &&& after.lengths.contains_key(other) <==> state.lengths.contains_key(other)
                &&& after.indexes.contains_key(other) <==> state.indexes.contains_key(other)
                &&& state.lengths.contains_key(other) ==> after.lengths[other]
                    == state.lengths[other]
                &&& state.indexes.contains_key(other) ==> after.indexes[other]
                    == state.indexes[other]
            }
        }),
{
}

/// Dropping a database takes away the lengths and the indexes of all its collections, and nothing
/// of any other database.
pub proof fn law_dropping_a_database(state: State, db: Seq<char>, place: Place)
    ensures
        ({
            let after = without_database(state, db);
            &&& after.syncs == state.syncs
            &&& place.0 == db ==> !after.lengths.contains_key(place)
                && !after.indexes.contains_key(place)
            &&& place.0 != db ==> {
                &&& after.lengths.contains_key(place) <==> state.lengths.contains_key(place)
                &&& after.indexes.contains_key(place) <==> state.indexes.contains_key(place)
                &&& state.lengths.contains_key(place) ==> after.lengths[place]
                    == state.lengths[place]
                &&& state.indexes.contains_key(place) ==> after.indexes[place]
                    == state.indexes[place]
            }
        }),
{
}

} // verus!

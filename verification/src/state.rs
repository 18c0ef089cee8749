//! What the engine knows, and what each operation makes of it.

use crate::document::{is_id, prints_well, running};
use crate::error::EngineError;
use crate::index::{CollView, Place};
use crate::insertion::{is_annotated, is_excess, joins, Event, Insertion, Stage};
use crate::json::{json_of, Json};
use crate::log::{field_index, log_records};
use crate::name::{is_invalid_name, valid_name};
use crate::writing::{index_after_all, lines_of};
use serde_json::Value;
use vstd::prelude::*;

verus! {

/// What an engine knows.
#[verifier::ext_equal]
pub struct State {
    /// Whether each write is forced to the disk.
    pub syncs: bool,
    /// The length of the log of each collection that is open for writing.
    pub lengths: Map<Place, u64>,
    /// The indexes of each collection that has any.
    pub indexes: Map<Place, CollView>,
}

/// The first of two names that is none.
pub open spec fn refused(db: Seq<char>, coll: Seq<char>) -> Option<Seq<char>> {
    if !valid_name(db) {
        Some(db)
    } else if !valid_name(coll) {
        Some(coll)
    } else {
        None
    }
}

/// The first of three names that is none.
pub open spec fn refused_field(db: Seq<char>, coll: Seq<char>, field: Seq<char>) -> Option<
    Seq<char>,
> {
    match refused(db, coll) {
        Some(name) => Some(name),
        None => if !valid_name(field) {
            Some(field)
        } else {
            None
        },
    }
}

/// What has to be done first for documents that go into a collection.
pub open spec fn first_stage(state: State, place: Place, docs: Seq<Json>) -> Stage {
    if docs.len() == 0 {
        Stage::Done
    } else if state.lengths.contains_key(place) {
        Stage::Append(state.lengths[place])
    } else {
        Stage::Open
    }
}

/// The indexes once documents of a collection are listed in them.
pub open spec fn listed(
    indexes: Map<Place, CollView>,
    place: Place,
    docs: Seq<Json>,
    base: int,
) -> Map<Place, CollView> {
    if indexes.contains_key(place) {
        indexes.insert(place, index_after_all(indexes[place], docs, base))
    } else {
        indexes
    }
}

/// Documents that have got their identifiers, the first of them with the running number `first`.
pub open spec fn stamped(
    docs: Seq<Value>,
    ids: Seq<Seq<char>>,
    stored: Seq<Json>,
    first: u16,
) -> bool {
    &&& ids.len() == stored.len() == docs.len()
    &&& forall|i: int|
        0 <= i < docs.len() ==> is_id(#[trigger] ids[i], running(first, i as nat) as u64)
            && is_annotated(json_of(docs[i]), ids[i], stored[i])
}

/// The documents fit into a batch, one after the other.
pub open spec fn all_join(docs: Seq<Json>) -> bool {
    forall|i: int| 0 <= i < docs.len() ==> joins(docs.take(i), #[trigger] docs[i]) is Ok
}

/// What starting an insertion of `docs` returns, where the first of them have become `stored`
/// under the identifiers, which are numbered from `first` on. All of them have unless one was too
/// long, which is then the last.
pub open spec fn starts(
    state: State,
    place: Place,
    docs: Seq<Value>,
    first: u16,
    ids: Seq<Seq<char>>,
    stored: Seq<Json>,
    res: Result<Insertion, EngineError>,
) -> bool {
    &&& stored.len() <= docs.len()
    &&& stamped(docs.take(stored.len() as int), ids, stored, first)
    &&& match res {
        Ok(ins) => {
            &&& stored.len() == docs.len()
            &&& all_join(stored)
            &&& docs.len() > 0 ==> refused(place.0, place.1) is None
            &&& ins.place() == place
            &&& ins.batch.id_texts() == ids
            &&& ins.documents() == stored
            &&& ins.stage == first_stage(state, place, stored)
            &&& forall|i: int| 0 <= i < stored.len() ==> prints_well(#[trigger] stored[i])
        },
        Err(e) => {
            &&& stored.len() > 0
            &&& all_join(stored.drop_last())
            &&& match joins(stored.drop_last(), stored.last()) {
                Err(excess) => is_excess(e, excess),
                Ok(_) => stored.len() == docs.len() && (refused(place.0, place.1) matches Some(name)
                    && is_invalid_name(e, name)),
            }
        },
    }
}

impl Insertion {
    /// Where the documents go.
    pub open spec fn place(self) -> Place {
        (self.db@, self.coll@)
    }

    /// The documents.
    pub open spec fn documents(self) -> Seq<Json> {
        self.batch.documents()
    }

    /// The insertion at another stage.
    pub open spec fn at(self, stage: Stage) -> Insertion {
        Insertion { stage, ..self }
    }
}

/// The event is one that the stage waits for.
pub open spec fn expected(stage: Stage, event: Event) -> bool {
    match stage {
        Stage::Open => event is Opened || event is Failed,
        Stage::Append(_) => event is Appended || event is Failed,
        Stage::Sync(_) => event is Synced || event is Failed,
        Stage::Done => false,
    }
}

/// What an event does to what the engine knows.
pub open spec fn next_state(state: State, ins: Insertion, event: Event) -> State {
    let place = ins.place();
    match (ins.stage, event) {
        (Stage::Open, Event::Opened(length)) => if state.lengths.contains_key(place) {
            state
        } else {
            State { lengths: state.lengths.insert(place, length), ..state }
        },
        (Stage::Append(base), Event::Appended) => State {
            lengths: state.lengths.insert(
                place,
                (base + lines_of(ins.documents()).len()) as u64,
            ),
            indexes: if state.syncs {
                state.indexes
            } else {
                listed(state.indexes, place, ins.documents(), base as int)
            },
            ..state
        },
        (Stage::Sync(base), Event::Synced) => State {
            indexes: listed(state.indexes, place, ins.documents(), base as int),
            ..state
        },
        _ => state,
    }
}

/// The stage that an event leads to.
pub open spec fn next_stage(state: State, ins: Insertion, event: Event) -> Stage {
    match (ins.stage, event) {
        (Stage::Open, Event::Opened(length)) => Stage::Append(
            if state.lengths.contains_key(ins.place()) {
                state.lengths[ins.place()]
            } else {
                length
            },
        ),
        (Stage::Append(base), Event::Appended) => if state.syncs {
            Stage::Sync(base)
        } else {
            Stage::Done
        },
        _ => Stage::Done,
    }
}

/// The indexes of a collection, where it has any.
pub open spec fn index_at(state: State, place: Place) -> Option<CollView> {
    if state.indexes.contains_key(place) {
        Some(state.indexes[place])
    } else {
        None
    }
}

/// The fields of a collection that are indexed.
pub open spec fn indexed_fields(state: State, place: Place) -> Set<Seq<char>> {
    match index_at(state, place) {
        Some(index) => index.dom(),
        None => Set::empty(),
    }
}

/// What the engine knows once a field of a collection is indexed.
pub open spec fn with_index(state: State, place: Place, field: Seq<char>, data: Seq<u8>) -> State {
    let before = match index_at(state, place) {
        Some(index) => index,
        None => Map::empty(),
    };
    State {
        indexes: state.indexes.insert(
            place,
            before.insert(field, field_index(log_records(data), field)),
        ),
        ..state
    }
}

/// What the engine knows once a field of a collection is indexed no more.
pub open spec fn without_index(state: State, place: Place, field: Seq<char>) -> State {
    match index_at(state, place) {
        Some(index) => State {
            indexes: state.indexes.insert(place, index.remove(field)),
            ..state
        },
        None => state,
    }
}

/// What the engine knows once a collection is dropped.
pub open spec fn without_collection(state: State, place: Place) -> State {
    State {
        lengths: state.lengths.remove(place),
        indexes: state.indexes.remove(place),
        ..state
    }
}

/// What the engine knows once a database is dropped.
pub open spec fn without_database(state: State, db: Seq<char>) -> State {
    let gone = Set::new(|place: Place| place.0 == db);
    State {
        lengths: state.lengths.remove_keys(gone),
        indexes: state.indexes.remove_keys(gone),
        ..state
    }
}

} // verus!

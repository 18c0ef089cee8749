//! Insertions: documents on their way into a log, and how far they have come.

use crate::document::{
    annotate, annotate_with, annotated, is_id, nanos_at, prints_well, Stored, MAX_DOC,
};
use crate::error::EngineError;
use crate::json::{json_of, json_text, Json};
use crate::text::{decimal, texts};
use crate::writing::lines_of;
use serde_json::Value;
use std::time::SystemTime;
use vstd::prelude::*;
use vstd::utf8::encode_utf8;

verus! {

/// The most bytes that the documents of one batch may take: 128 MB.
pub const MAX_BATCH: usize = 134_217_728;

/// A document that is not too long to be stored.
pub open spec fn fits(doc: Json) -> bool {
    encode_utf8(json_text(doc)).len() <= MAX_DOC
}

/// `doc` is what is stored for `j` under the identifier, at some time.
pub open spec fn is_annotated(j: Json, id: Seq<char>, doc: Json) -> bool {
    exists|t: SystemTime| doc == #[trigger] annotated(j, id, decimal(nanos_at(t) as nat))
}

/// What comes of a document that is to join the documents of a batch.
pub open spec fn joins(before: Seq<Json>, doc: Json) -> Result<Seq<Json>, Excess> {
    if !fits(doc) {
        Err(Excess::Document)
    } else if lines_of(before.push(doc)).len() > MAX_BATCH {
        Err(Excess::Batch)
    } else {
        Ok(before.push(doc))
    }
}

/// What was too long.
pub enum Excess {
    Document,
    Batch,
}

/// `e` says what was too long.
pub open spec fn is_excess(e: EngineError, excess: Excess) -> bool {
    match excess {
        Excess::Document => e is TooLarge,
        Excess::Batch => e is BatchTooLarge,
    }
}

/// Documents that are written together: their identifiers, their lines, and for each document
/// where its line starts among them.
pub struct Batch {
    ids: Vec<String>,
    blob: Vec<u8>,
    docs: Vec<(Value, u64)>,
}

impl Batch {
    /// The identifiers.
    pub closed spec fn id_texts(self) -> Seq<Seq<char>> {
        texts(self.ids@)
    }

    /// The documents.
    pub closed spec fn documents(self) -> Seq<Json> {
        self.docs@.map_values(|d: (Value, u64)| json_of(d.0))
    }

    #[verifier::type_invariant]
    spec fn consistent(self) -> bool {
        &&& self.ids@.len() == self.docs@.len()
        &&& self.blob@ == lines_of(self.documents())
        &&& self.blob@.len() <= MAX_BATCH
        &&& forall|i: int|
            0 <= i < self.docs@.len() ==> (#[trigger] self.docs@[i]).1 == lines_of(
                self.documents().take(i),
            ).len()
        &&& forall|i: int|
            0 <= i < self.docs@.len() ==> prints_well(#[trigger] self.documents()[i])
    }

    /// A batch without documents.
    pub fn new() -> (res: Batch)
        ensures
            res.id_texts() == Seq::<Seq<char>>::empty(),
            res.documents() == Seq::<Json>::empty(),
    {
        let ids: Vec<String> = Vec::new();
        let blob: Vec<u8> = Vec::new();
        let docs: Vec<(Value, u64)> = Vec::new();
        proof {
            assert(docs@.map_values(|d: (Value, u64)| json_of(d.0)) =~= seq![]);
            assert(texts(ids@) =~= seq![]);
        }
        Batch { ids, blob, docs }
    }

    /// The identifiers, in the order of the documents.
    pub fn ids(&self) -> (res: &Vec<String>)
        ensures
            texts(res@) == self.id_texts(),
            res@.len() == self.documents().len(),
    {
        proof {
            use_type_invariant(self);
        }
        &self.ids
    }

    /// The bytes to append to the log: the line of each document, in order.
    pub fn blob(&self) -> (res: &Vec<u8>)
        ensures
            res@ == lines_of(self.documents()),
            res@.len() <= MAX_BATCH,
    {
        proof {
            use_type_invariant(self);
        }
        &self.blob
    }

    /// The documents, each with the place of its line among the bytes.
    pub(crate) fn docs(&self) -> (res: &Vec<(Value, u64)>)
        ensures
            res@.len() == self.documents().len(),
            forall|i: int|
                0 <= i < res@.len() ==> json_of((#[trigger] res@[i]).0) == self.documents()[i]
                    && res@[i].1 == lines_of(self.documents().take(i)).len() && prints_well(
                    self.documents()[i],
                ),
    {
        proof {
            use_type_invariant(self);
            assert forall|i: int| 0 <= i < self.docs@.len() implies prints_well(
                json_of((#[trigger] self.docs@[i]).0),
            ) by {
                assert(self.documents()[i] == json_of(self.docs@[i].0));
            }
        }
        &self.docs
    }

    /// The batch with one more document.
    fn push(self, stored: Stored) -> (res: Result<Batch, EngineError>)
        requires
            stored.line@ == json_text(json_of(stored.doc)).push('\n'),
            fits(json_of(stored.doc)),
            prints_well(json_of(stored.doc)),
        ensures
            match joins(self.documents(), json_of(stored.doc)) {
                Ok(docs) => res matches Ok(batch) && batch.documents() == docs && batch.id_texts()
                    == self.id_texts().push(stored.id@),
                Err(excess) => res matches Err(e) && is_excess(e, excess),
            },
    {
        proof {
            use_type_invariant(&self);
        }
        let ghost before = self.documents();
        let ghost old_docs = self.docs@;
        let ghost old_ids = self.ids@;
        let ghost doc = json_of(stored.doc);
        let mut ids = self.ids;
        let mut blob = self.blob;
        let mut docs = self.docs;
        let start = blob.len() as u64;
        let line = stored.line;
        blob.extend_from_slice(line.as_str().as_bytes());
        proof {
            assert(before.push(doc).drop_last() =~= before);
            assert(blob@ =~= lines_of(before.push(doc)));
        }
        if blob.len() > MAX_BATCH {
            return Err(EngineError::BatchTooLarge);
        }
        ids.push(stored.id);
        docs.push((stored.doc, start));
        proof {
            let after = docs@.map_values(|d: (Value, u64)| json_of(d.0));
            assert(after =~= before.push(doc));
            assert(texts(ids@) =~= texts(old_ids).push(stored.id@));
            assert forall|i: int| 0 <= i < docs@.len() implies (#[trigger] docs@[i]).1 == lines_of(
                after.take(i),
            ).len() by {
                if i < old_docs.len() {
                    assert(docs@[i] == old_docs[i]);
                    assert(after.take(i) =~= before.take(i));
                } else {
                    assert(after.take(i) =~= before);
                }
            }
            assert forall|i: int| 0 <= i < docs@.len() implies prints_well(#[trigger] after[i]) by {
                if i < old_docs.len() {
                    assert(after[i] == before[i]);
                }
            }
        }
        Ok(Batch { ids, blob, docs })
    }

    /// The batch with one more document, stored under the given identifier and time.
    pub fn add_with(self, doc: Value, id: String, nanos: u128) -> (res: Result<Batch, EngineError>)
        ensures
            match joins(
                self.documents(),
                annotated(json_of(doc), id@, decimal(nanos as nat)),
            ) {
                Ok(docs) => res matches Ok(batch) && batch.documents() == docs && batch.id_texts()
                    == self.id_texts().push(id@),
                Err(excess) => res matches Err(e) && is_excess(e, excess),
            },
    {
        match annotate_with(doc, id, nanos) {
            Err(e) => Err(e),
            Ok(stored) => self.push(stored),
        }
    }

    /// The batch with one more document, stored now under a new identifier.
    pub(crate) fn add_now(self, doc: Value, number: u16) -> (res: Result<Batch, EngineError>)
        ensures
            exists|id: Seq<char>, stored: Json|
                {
                    &&& is_id(id, number as u64)
                    &&& #[trigger] is_annotated(json_of(doc), id, stored)
                    &&& match joins(self.documents(), stored) {
                        Ok(docs) => res matches Ok(batch) && batch.documents() == docs
                            && batch.id_texts() == self.id_texts().push(id),
                        Err(excess) => res matches Err(e) && is_excess(e, excess),
                    }
                },
    {
        let annotated_doc = annotate(doc, number as u64);
        proof {
            let (id, t) = choose|id: Seq<char>, t: SystemTime|
                {
                    let j = #[trigger] annotated(json_of(doc), id, decimal(nanos_at(t) as nat));
                    &&& is_id(id, number as u64)
                    &&& match annotated_doc {
                        Ok(stored) => {
                            &&& encode_utf8(json_text(j)).len() <= MAX_DOC
                            &&& stored.id@ == id
                            &&& stored.line@ == json_text(j).push('\n')
                            &&& json_of(stored.doc) == j
                            &&& prints_well(j)
                        },
                        Err(e) => e is TooLarge && encode_utf8(json_text(j)).len() > MAX_DOC,
                    }
                };
            let j = annotated(json_of(doc), id, decimal(nanos_at(t) as nat));
            assert(is_annotated(json_of(doc), id, j));
        }
        match annotated_doc {
            Err(e) => Err(e),
            Ok(stored) => self.push(stored),
        }
    }
}

/// What has to be done next for an insertion.
pub enum Stage {
    /// The log is to be opened for writing.
    Open,
    /// The lines are to be appended to the log, which ends at the offset.
    Append(u64),
    /// The log, to which the lines were appended at the offset, is to be forced to the disk.
    Sync(u64),
    /// Nothing: the documents are stored.
    Done,
}

/// What came of the last step of an insertion.
pub enum Event {
    /// The log is open for writing, and has the length.
    Opened(u64),
    /// The lines stand at the end of the log.
    Appended,
    /// The log is on the disk.
    Synced,
    /// The step failed.
    Failed(std::io::Error),
}

/// A batch on its way into a collection.
pub struct Insertion {
    pub db: String,
    pub coll: String,
    pub batch: Batch,
    pub stage: Stage,
}

} // verus!

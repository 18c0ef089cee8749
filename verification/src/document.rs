//! Documents on their way into a log: identifiers, time stamps and lines.

use crate::error::EngineError;
use crate::json::{
    into_object, is_compact, json_of, json_parse, json_text, map_insert, object_value, plain,
    string_value, to_string, Json,
};
use crate::text::{decimal, hex, push_decimal, push_hex};
use serde_json::Value;
use std::time::{Duration, SystemTime};
use vstd::prelude::*;
use vstd::utf8::encode_utf8;

verus! {

/// The most bytes that a document may take: 16 MB.
pub const MAX_DOC: usize = 16_777_216;

// ---- the clock and the random numbers ----

#[verifier::external_type_specification]
#[verifier::external_body]
pub struct ExSystemTime(std::time::SystemTime);

/// What lies between the start of 1970 and a time, as `SystemTime::duration_since` gives it; it
/// gives none for an earlier time.
pub uninterp spec fn since_epoch(t: std::time::SystemTime) -> Option<std::time::Duration>;

/// The nanoseconds in a duration, as `Duration::as_nanos` gives them.
pub uninterp spec fn nanos_in(d: std::time::Duration) -> u128;

/// `SystemTime::now`: whatever the clock says.
pub assume_specification[ SystemTime::now ]() -> (res: SystemTime);

/// `SystemTime::duration_since`, from `SystemTime::UNIX_EPOCH` on.
#[verifier::external_body]
fn elapsed(t: SystemTime) -> (res: Option<Duration>)
    ensures
        res == since_epoch(t),
{
    t.duration_since(SystemTime::UNIX_EPOCH).ok()
}

/// `Duration::as_nanos`.
pub assume_specification[ Duration::as_nanos ](d: &Duration) -> (res: u128)
    ensures
        res == nanos_in(*d),
;

/// `rand::random`: eight bytes, of which nothing is known.
#[verifier::external_body]
fn random_bytes() -> (res: [u8; 8]) {
    rand::random()
}

/// The nanoseconds from 1970 to a time; zero where the time is earlier.
pub open spec fn nanos_at(t: SystemTime) -> u128 {
    match since_epoch(t) {
        Some(d) => nanos_in(d),
        None => 0,
    }
}

/// The nanoseconds since 1970.
fn now_nanos() -> (res: u128)
    ensures
        exists|t: SystemTime| res == #[trigger] nanos_at(t),
{
    let now = SystemTime::now();
    let nanos = match elapsed(now) {
        Some(d) => d.as_nanos(),
        None => 0,
    };
    assert(nanos == nanos_at(now));
    nanos
}

// ---- identifiers ----

/// Bytes as pairs of hexadecimal digits.
pub open spec fn bytes_hex(bytes: Seq<u8>) -> Seq<char>
    decreases bytes.len(),
{
    if bytes.len() == 0 {
        seq![]
    } else {
        bytes_hex(bytes.drop_last()) + hex(bytes.last() as nat, 2)
    }
}

/// The identifier made of a time in nanoseconds, a running number and random bytes: sixteen
/// digits of the time, four of the number, and the bytes.
pub open spec fn id_text(time: u64, number: u64, random: Seq<u8>) -> Seq<char> {
    hex(time as nat, 16) + hex(number as nat, 4) + bytes_hex(random)
}

/// The running number that follows `first` after `count` identifiers.
pub open spec fn running(first: u16, count: nat) -> u16 {
    ((first + count) % 0x1_0000) as u16
}

/// The running numbers of identifiers. One counter serves all engines of a process.
pub struct Counter {
    next: u16,
}

impl View for Counter {
    type V = u16;

    /// The number that is handed out next.
    closed spec fn view(&self) -> u16 {
        self.next
    }
}

impl Counter {
    /// A counter that starts with zero.
    pub fn new() -> (res: Counter)
        ensures
            res@ == 0,
    {
        Counter { next: 0 }
    }

    /// Hands out a number. After the largest of four hexadecimal digits comes zero.
    pub(crate) fn take(&mut self) -> (res: u16)
        ensures
            res == old(self)@,
            final(self)@ == running(old(self)@, 1),
    {
        let number = self.next;
        self.next = if number == u16::MAX {
            0
        } else {
            number + 1
        };
        number
    }
}

/// `id` is an identifier with the running number, made at some time.
pub open spec fn is_id(id: Seq<char>, number: u64) -> bool {
    exists|t: SystemTime, random: Seq<u8>|
        random.len() == 8 && id == #[trigger] id_text(nanos_at(t) as u64, number, random)
}

/// Makes an identifier.
pub fn format_id(time: u64, number: u64, random: [u8; 8]) -> (res: String)
    ensures
        res@ == id_text(time, number, random@),
{
    let mut out = String::new();
    push_hex(&mut out, time, 16);
    push_hex(&mut out, number, 4);
    let ghost head = out@;
    let mut i: usize = 0;
    assert(random@.take(0) =~= seq![]);
    assert(out@ =~= head + bytes_hex(random@.take(0)));
    while i < 8
        invariant
            i <= 8,
            random@.len() == 8,
            out@ == head + bytes_hex(random@.take(i as int)),
        decreases 8 - i,
    {
        let ghost before = out@;
        push_hex(&mut out, random[i] as u64, 2);
        proof {
            assert(random@.take(i + 1).drop_last() =~= random@.take(i as int));
            assert(out@ =~= head + bytes_hex(random@.take(i + 1)));
        }
        i = i + 1;
    }
    proof {
        assert(random@.take(8) =~= random@);
        assert(head =~= hex(time as nat, 16) + hex(number as nat, 4));
    }
    out
}

/// A new identifier with the running number.
fn new_id(number: u64) -> (res: String)
    ensures
        is_id(res@, number),
{
    let nanos = now_nanos();
    let random = random_bytes();
    proof {
        let t = choose|t: SystemTime| nanos == #[trigger] nanos_at(t);
        assert(id_text(nanos as u64, number, random@) == id_text(
            nanos_at(t) as u64,
            number,
            random@,
        ));
    }
    format_id(nanos as u64, number, random)
}

// ---- lines ----

/// The document that is stored for `j`: an object gets the members `_id` and `_ts`; any other
/// value is stored as it is.
pub open spec fn annotated(j: Json, id: Seq<char>, ts: Seq<char>) -> Json {
    match j {
        Json::Object(m) => Json::Object(
            m.insert("_id"@, Json::Str(id)).insert("_ts"@, Json::Str(ts)),
        ),
        _ => j,
    }
}

/// The line in which a document is stored.
pub open spec fn line_of(j: Json) -> Seq<u8> {
    encode_utf8(json_text(j).push('\n'))
}

/// The text of `j` stands in one line, and is read back as `j` unless floating point numbers, deep
/// nesting or a member that marks raw text stand in the way.
pub open spec fn prints_well(j: Json) -> bool {
    &&& is_compact(json_text(j))
    &&& plain(j, 127) ==> json_parse(json_text(j)) == Some(j)
}

/// A document as it is stored.
pub struct Stored {
    pub id: String,
    pub line: String,
    pub doc: Value,
}

/// What is stored for a document under the given identifier and time.
pub fn annotate_with(doc: Value, id: String, nanos: u128) -> (res: Result<Stored, EngineError>)
    ensures
        ({
            let j = annotated(json_of(doc), id@, decimal(nanos as nat));
            match res {
                Ok(stored) => {
                    &&& encode_utf8(json_text(j)).len() <= MAX_DOC
                    &&& stored.id@ == id@
                    &&& stored.line@ == json_text(j).push('\n')
                    &&& json_of(stored.doc) == j
                    &&& prints_well(j)
                },
                Err(e) => e is TooLarge && encode_utf8(json_text(j)).len() > MAX_DOC,
            }
        }),
{
    let mut ts = String::new();
    push_decimal(&mut ts, nanos);
    assert(ts@ =~= decimal(nanos as nat));
    let doc = match into_object(doc) {
        Ok(mut members) => {
            map_insert(&mut members, "_id".to_owned(), string_value(id.clone()));
            map_insert(&mut members, "_ts".to_owned(), string_value(ts));
            object_value(members)
        },
        Err(same) => same,
    };
    match to_string(&doc) {
        Err(e) => Err(EngineError::Json(e)),
        Ok(mut line) => {
            if line.as_str().as_bytes().len() > MAX_DOC {
                return Err(EngineError::TooLarge);
            }
            line.push('\n');
            Ok(Stored { id, line, doc })
        },
    }
}

/// What is stored for a document, now.
pub(crate) fn annotate(doc: Value, number: u64) -> (res: Result<Stored, EngineError>)
    ensures
        exists|id: Seq<char>, t: SystemTime|
            {
                let j = #[trigger] annotated(json_of(doc), id, decimal(nanos_at(t) as nat));
                &&& is_id(id, number)
                &&& match res {
                    Ok(stored) => {
                        &&& encode_utf8(json_text(j)).len() <= MAX_DOC
                        &&& stored.id@ == id
                        &&& stored.line@ == json_text(j).push('\n')
                        &&& json_of(stored.doc) == j
                        &&& prints_well(j)
                    },
                    Err(e) => e is TooLarge && encode_utf8(json_text(j)).len() > MAX_DOC,
                }
            },
{
    let id = new_id(number);
    let nanos = now_nanos();
    proof {
        let t = choose|t: SystemTime| nanos == #[trigger] nanos_at(t);
        assert(annotated(json_of(doc), id@, decimal(nanos as nat)) == annotated(
            json_of(doc),
            id@,
            decimal(nanos_at(t) as nat),
        ));
    }
    annotate_with(doc, id, nanos)
}

} // verus!

//! The log of a collection: one JSON document per line.

use crate::error::{invalid_data, EngineError};
use crate::filter::{demands, passes_any, Filter};
use crate::index::{new_field_index, offsets_of, offsets_under, push_offset, FieldIndex, FieldView};
use crate::json::{from_str, get, json_of, json_parse, json_text, jsons, member, to_string, Json};
use crate::text::{trim, trimmed, utf8_str};
use serde_json::Value;
use vstd::prelude::*;
use vstd::utf8::{decode_utf8, valid_utf8};

verus! {

/// The byte that ends a line.
pub const NEWLINE: u8 = 10;

/// What stands in a line.
pub enum Line {
    /// Nothing but white space.
    Blank,
    /// A document.
    Doc(Json),
    /// Bytes that are not UTF-8.
    NotText,
    /// Text that is not JSON.
    NotJson,
}

/// What the bytes of a line say.
pub open spec fn read_line(bytes: Seq<u8>) -> Line {
    if !valid_utf8(bytes) {
        Line::NotText
    } else {
        let text = trim(decode_utf8(bytes));
        if text.len() == 0 {
            Line::Blank
        } else {
            match json_parse(text) {
                Some(j) => Line::Doc(j),
                None => Line::NotJson,
            }
        }
    }
}

/// Where the line ends that `start` lies in: at the next newline, or at the end of the data.
pub open spec fn line_end(data: Seq<u8>, start: int) -> int
    decreases data.len() - start,
{
    if start >= data.len() {
        data.len() as int
    } else if data[start] == NEWLINE {
        start
    } else {
        line_end(data, start + 1)
    }
}

/// Where the line after that one starts.
pub open spec fn next_line(data: Seq<u8>, start: int) -> int {
    if line_end(data, start) < data.len() {
        line_end(data, start) + 1
    } else {
        data.len() as int
    }
}

/// The bytes of the line that starts at `start`, without its newline.
pub open spec fn line_bytes(data: Seq<u8>, start: int) -> Seq<u8> {
    data.subrange(start, line_end(data, start))
}

pub proof fn lemma_line_end(data: Seq<u8>, start: int)
    requires
        0 <= start <= data.len(),
    ensures
        start <= line_end(data, start) <= data.len(),
        forall|k: int| start <= k < line_end(data, start) ==> data[k] != NEWLINE,
        line_end(data, start) < data.len() ==> data[line_end(data, start)] == NEWLINE,
    decreases data.len() - start,
{
    if start < data.len() && data[start] != NEWLINE {
        lemma_line_end(data, start + 1);
    }
}

/// The line end in a line that has no newline of its own.
pub proof fn lemma_line_end_single(data: Seq<u8>, start: int, end: int)
    requires
        0 <= start <= end < data.len(),
        data[end] == NEWLINE,
        forall|k: int| start <= k < end ==> data[k] != NEWLINE,
    ensures
        line_end(data, start) == end,
    decreases end - start,
{
    if start < end {
        lemma_line_end_single(data, start + 1, end);
    }
}

/// A line, and where it starts.
pub struct Record {
    pub offset: int,
    pub line: Line,
}

/// The lines from `start` on.
pub open spec fn records(data: Seq<u8>, start: int) -> Seq<Record>
    decreases data.len() - start,
{
    if 0 <= start < data.len() {
        proof {
            lemma_line_end(data, start);
        }
        seq![Record { offset: start, line: read_line(line_bytes(data, start)) }] + records(
            data,
            next_line(data, start),
        )
    } else {
        seq![]
    }
}

/// The lines of a log.
pub open spec fn log_records(data: Seq<u8>) -> Seq<Record> {
    records(data, 0)
}

/// Why lines could not be read.
pub enum Fault {
    Text,
    Json,
}

/// The documents, with `j` before them.
pub open spec fn prepend(j: Json, rest: Result<Seq<Json>, Fault>) -> Result<Seq<Json>, Fault> {
    match rest {
        Ok(docs) => Ok(seq![j] + docs),
        Err(fault) => Err(fault),
    }
}

/// The documents, with `docs` before them.
pub open spec fn extend(docs: Seq<Json>, rest: Result<Seq<Json>, Fault>) -> Result<
    Seq<Json>,
    Fault,
> {
    match rest {
        Ok(more) => Ok(docs + more),
        Err(fault) => Err(fault),
    }
}

/// What a scan finds: of the documents that pass the filter, the first `skip` are left out, and
/// the scan stops with the one that reaches the limit. A limit of zero is reached by the first
/// document. A line that cannot be read before that is a fault.
pub open spec fn scan_records(
    lines: Seq<Record>,
    filter: Option<Map<Seq<char>, Json>>,
    skip: nat,
    limit: Option<nat>,
) -> Result<Seq<Json>, Fault>
    decreases lines.len(),
{
    if lines.len() == 0 {
        Ok(seq![])
    } else {
        let rest = lines.drop_first();
        match lines[0].line {
            Line::Blank => scan_records(rest, filter, skip, limit),
            Line::NotText => Err(Fault::Text),
            Line::NotJson => Err(Fault::Json),
            Line::Doc(j) => if !passes_any(j, filter) {
                scan_records(rest, filter, skip, limit)
            } else if skip > 0 {
                scan_records(rest, filter, (skip - 1) as nat, limit)
            } else {
                match limit {
                    None => prepend(j, scan_records(rest, filter, 0, None)),
                    Some(n) => if n <= 1 {
                        Ok(seq![j])
                    } else {
                        prepend(j, scan_records(rest, filter, 0, Some((n - 1) as nat)))
                    },
                }
            },
        }
    }
}

/// The documents in `lines`, up to the first line that cannot be read.
pub open spec fn docs_in(lines: Seq<Line>) -> Result<Seq<Json>, Fault>
    decreases lines.len(),
{
    if lines.len() == 0 {
        Ok(seq![])
    } else {
        let rest = lines.drop_first();
        match lines[0] {
            Line::Blank => docs_in(rest),
            Line::NotText => Err(Fault::Text),
            Line::NotJson => Err(Fault::Json),
            Line::Doc(j) => prepend(j, docs_in(rest)),
        }
    }
}

/// What stands in the line at an offset; past the end there is nothing.
pub open spec fn line_at(data: Seq<u8>, offset: u64) -> Line {
    if offset < data.len() {
        read_line(line_bytes(data, offset as int))
    } else {
        Line::Blank
    }
}

/// `res` is what a reading that says `expected` returns.
pub open spec fn gives(
    res: Result<Vec<Value>, EngineError>,
    expected: Result<Seq<Json>, Fault>,
) -> bool {
    match expected {
        Ok(docs) => res matches Ok(values) && jsons(values@) == docs,
        Err(Fault::Text) => res matches Err(EngineError::Io(_)),
        Err(Fault::Json) => res matches Err(EngineError::Json(_)),
    }
}

/// The text of the field's value in the line, where the line holds a document with the field.
pub open spec fn field_text(line: Line, field: Seq<char>) -> Option<Seq<char>> {
    match line {
        Line::Doc(j) => match member(j, field) {
            Some(v) => Some(json_text(v)),
            None => None,
        },
        _ => None,
    }
}

/// Where the documents start whose field has the value of that text.
pub open spec fn hits(lines: Seq<Record>, field: Seq<char>, text: Seq<char>) -> Seq<u64>
    decreases lines.len(),
{
    if lines.len() == 0 {
        seq![]
    } else if field_text(lines[0].line, field) == Some(text) {
        seq![lines[0].offset as u64] + hits(lines.drop_first(), field, text)
    } else {
        hits(lines.drop_first(), field, text)
    }
}

/// The index of a field: under the text of each value that occurs, where its documents start.
pub open spec fn field_index(lines: Seq<Record>, field: Seq<char>) -> FieldView {
    Map::new(
        |text: Seq<char>| hits(lines, field, text).len() > 0,
        |text: Seq<char>| hits(lines, field, text),
    )
}

/// How many lines are not blank.
pub open spec fn filled(lines: Seq<Record>) -> nat
    decreases lines.len(),
{
    if lines.len() == 0 {
        0
    } else if lines[0].line is Blank {
        filled(lines.drop_first())
    } else {
        1 + filled(lines.drop_first())
    }
}

/// Every line is UTF-8.
pub open spec fn all_text(lines: Seq<Record>) -> bool {
    forall|i: int| 0 <= i < lines.len() ==> !((#[trigger] lines[i]).line is NotText)
}

/// Every line is blank or a document.
pub open spec fn readable(lines: Seq<Record>) -> bool {
    forall|i: int|
        0 <= i < lines.len() ==> (#[trigger] lines[i]).line is Blank || lines[i].line is Doc
}

/// The bytes in an optional file; a file that is missing holds nothing.
pub open spec fn contents(data: Option<&[u8]>) -> Seq<u8> {
    match data {
        Some(bytes) => bytes@,
        None => seq![],
    }
}

/// Where the line ends that starts at `start`.
fn find_line_end(data: &[u8], start: usize) -> (res: usize)
    requires
        start <= data@.len(),
    ensures
        res == line_end(data@, start as int),
        start <= res <= data@.len(),
{
    let mut i: usize = start;
    while i < data.len() && data[i] != NEWLINE
        invariant
            start <= i <= data@.len(),
            line_end(data@, i as int) == line_end(data@, start as int),
        decreases data@.len() - i,
    {
        i = i + 1;
    }
    i
}

/// Reads the bytes of one line.
fn decode_line(bytes: &[u8]) -> (res: Result<Option<Value>, EngineError>)
    ensures
        match read_line(bytes@) {
            Line::Blank => res matches Ok(None),
            Line::Doc(j) => res matches Ok(Some(v)) && json_of(v) == j,
            Line::NotText => res matches Err(EngineError::Io(_)),
            Line::NotJson => res matches Err(EngineError::Json(_)),
        },
{
    match utf8_str(bytes) {
        None => Err(EngineError::Io(invalid_data("stream did not contain valid UTF-8"))),
        Some(text) => {
            let body = trimmed(text);
            if body.is_empty() {
                Ok(None)
            } else {
                match from_str(body) {
                    Ok(v) => Ok(Some(v)),
                    Err(e) => Err(EngineError::Json(e)),
                }
            }
        },
    }
}

/// The line that starts at `start`, and where the next one starts.
fn take_line(data: &[u8], start: usize) -> (res: (&[u8], usize))
    requires
        start < data@.len(),
    ensures
        res.0@ == line_bytes(data@, start as int),
        res.1 == next_line(data@, start as int),
        start < res.1 <= data@.len(),
        records(data@, start as int) == seq![
            Record { offset: start as int, line: read_line(res.0@) },
        ] + records(data@, res.1 as int),
{
    let end = find_line_end(data, start);
    let line = vstd::slice::slice_subrange(data, start, end);
    if end < data.len() {
        (line, end + 1)
    } else {
        (line, end)
    }
}

/// Scans a log. The scan counts only documents that pass the filter, leaves out the first
/// `offset` of them, and ends once `n` are found.
pub fn scan(
    data: Option<&[u8]>,
    n: Option<usize>,
    offset: usize,
    filter: Option<&Filter>,
) -> (res: Result<Vec<Value>, EngineError>)
    ensures
        gives(
            res,
            scan_records(
                log_records(contents(data)),
                demands(filter),
                offset as nat,
                match n {
                    Some(k) => Some(k as nat),
                    None => None,
                },
            ),
        ),
{
    let bytes = match data {
        Some(bytes) => bytes,
        None => {
            let none: Vec<Value> = Vec::new();
            assert(jsons(none@) =~= seq![]);
            return Ok(none);
        },
    };
    let ghost limit = match n {
        Some(k) => Some(k as nat),
        None => None::<nat>,
    };
    let ghost expected = scan_records(
        log_records(contents(data)),
        demands(filter),
        offset as nat,
        limit,
    );
    let mut docs: Vec<Value> = Vec::new();
    let mut skipped: usize = 0;
    let mut pos: usize = 0;
    assert(expected == extend(
        jsons(docs@),
        scan_records(records(bytes@, 0), demands(filter), offset as nat, limit),
    )) by {
        assert(jsons(docs@) =~= seq![]);
        match expected {
            Ok(s) => {
                assert(jsons(docs@) + s =~= s);
            },
            Err(_) => {},
        }
    }
    while pos < bytes.len()
        invariant
            pos <= bytes@.len(),
            expected == scan_records(
                log_records(contents(data)),
                demands(filter),
                offset as nat,
                match n {
                    Some(k) => Some(k as nat),
                    None => None,
                },
            ),
            skipped <= offset,
            docs@.len() > 0 ==> skipped == offset,
            n matches Some(k) ==> docs@.len() == 0 || docs@.len() < k,
            expected == extend(
                jsons(docs@),
                scan_records(
                    records(bytes@, pos as int),
                    demands(filter),
                    (offset - skipped) as nat,
                    match n {
                        Some(k) => Some((k - docs@.len()) as nat),
                        None => None,
                    },
                ),
            ),
        decreases bytes@.len() - pos,
    {
        let ghost here = records(bytes@, pos as int);
        let (line, next) = take_line(bytes, pos);
        let ghost rest = records(bytes@, next as int);
        assert(here.drop_first() =~= rest);
        let read = decode_line(line);
        pos = next;
        match read {
            Err(e) => {
                return Err(e);
            },
            Ok(None) => {},
            Ok(Some(doc)) => {
                let keep = match filter {
                    Some(f) => f.matches_filter(&doc),
                    None => true,
                };
                if keep {
                    if skipped < offset {
                        skipped = skipped + 1;
                    } else {
                        let ghost before = jsons(docs@);
                        docs.push(doc);
                        proof {
                            assert(jsons(docs@) =~= before.push(json_of(doc)));
                            assert(forall|more: Seq<Json>| #[trigger]
                                (before + (seq![json_of(doc)] + more)) =~= jsons(docs@) + more);
                        }
                        match n {
                            Some(limit) => {
                                if docs.len() >= limit {
                                    assert(before + seq![json_of(doc)] =~= jsons(docs@));
                                    return Ok(docs);
                                }
                            },
                            None => {},
                        }
                    }
                }
            },
        }
    }
    assert(jsons(docs@) + seq![] =~= jsons(docs@));
    Ok(docs)
}

/// Reads the documents in some lines.
pub fn read_lines(lines: &Vec<Vec<u8>>) -> (res: Result<Vec<Value>, EngineError>)
    ensures
        gives(res, docs_in(lines@.map_values(|line: Vec<u8>| read_line(line@)))),
{
    let ghost all = lines@.map_values(|line: Vec<u8>| read_line(line@));
    let mut docs: Vec<Value> = Vec::new();
    let mut i: usize = 0;
    assert(docs_in(all) == extend(jsons(docs@), docs_in(all.skip(0)))) by {
        assert(jsons(docs@) =~= seq![]);
        assert(all.skip(0) =~= all);
        match docs_in(all) {
            Ok(s) => {
                assert(jsons(docs@) + s =~= s);
            },
            Err(_) => {},
        }
    }
    while i < lines.len()
        invariant
            i <= lines@.len(),
            all == lines@.map_values(|line: Vec<u8>| read_line(line@)),
            docs_in(all) == extend(jsons(docs@), docs_in(all.skip(i as int))),
        decreases lines@.len() - i,
    {
        assert(all.skip(i as int).drop_first() =~= all.skip(i + 1));
        assert(all.skip(i as int)[0] == read_line(lines@[i as int]@));
        match decode_line(lines[i].as_slice()) {
            Err(e) => {
                return Err(e);
            },
            Ok(None) => {},
            Ok(Some(doc)) => {
                let ghost before = jsons(docs@);
                docs.push(doc);
                proof {
                    assert(jsons(docs@) =~= before.push(json_of(doc)));
                    assert(forall|more: Seq<Json>| #[trigger]
                        (before + (seq![json_of(doc)] + more)) =~= jsons(docs@) + more);
                }
            },
        }
        i = i + 1;
    }
    assert(jsons(docs@) + seq![] =~= jsons(docs@));
    Ok(docs)
}

/// Reads the documents that start at some offsets of a log.
pub fn read_at_offsets(data: Option<&[u8]>, offsets: &Vec<u64>) -> (res: Result<
    Vec<Value>,
    EngineError,
>)
    ensures
        gives(res, docs_in(offsets@.map_values(|offset: u64| line_at(contents(data), offset)))),
{
    let mut lines: Vec<Vec<u8>> = Vec::new();
    let mut i: usize = 0;
    while i < offsets.len()
        invariant
            i <= offsets@.len(),
            lines@.len() == i,
            forall|k: int|
                0 <= k < i ==> read_line((#[trigger] lines@[k])@) == line_at(
                    contents(data),
                    offsets@[k],
                ),
        decreases offsets@.len() - i,
    {
        let mut line: Vec<u8> = Vec::new();
        proof {
            assert(valid_utf8(line@));
            assert(decode_utf8(line@) =~= seq![]);
        }
        match data {
            Some(bytes) => {
                if offsets[i] < bytes.len() as u64 {
                    let start = offsets[i] as usize;
                    let end = find_line_end(bytes, start);
                    line = vstd::slice::slice_to_vec(vstd::slice::slice_subrange(bytes, start, end));
                }
            },
            None => {},
        }
        lines.push(line);
        i = i + 1;
    }
    assert(lines@.map_values(|line: Vec<u8>| read_line(line@)) =~= offsets@.map_values(
        |offset: u64| line_at(contents(data), offset),
    ));
    read_lines(&lines)
}

/// `memchr::memchr_iter`: where the byte occurs, from the start to the end.
#[verifier::external_body]
fn byte_positions(data: &[u8], byte: u8) -> (res: Vec<usize>)
    ensures
        forall|i: int, j: int| 0 <= i < j < res@.len() ==> res@[i] < res@[j],
        forall|i: int|
            0 <= i < res@.len() ==> (#[trigger] res@[i]) < data@.len() && data@[res@[i] as int]
                == byte,
        forall|at: int|
            0 <= at < data@.len() && #[trigger] data@[at] == byte ==> exists|i: int|
                0 <= i < res@.len() && #[trigger] res@[i] == at,
{
    memchr::memchr_iter(byte, data).collect()
}

/// Whether the bytes of a line are nothing but white space.
fn is_blank(bytes: &[u8]) -> (res: bool)
    ensures
        res == (read_line(bytes@) is Blank),
{
    match utf8_str(bytes) {
        None => false,
        Some(text) => trimmed(text).is_empty(),
    }
}

/// How many lines of a log are not blank.
pub fn count_lines(data: Option<&[u8]>) -> (res: usize)
    ensures
        res == filled(log_records(contents(data))),
{
    let bytes = match data {
        Some(bytes) => bytes,
        None => {
            return 0;
        },
    };
    let ends = byte_positions(bytes, NEWLINE);
    let mut count: usize = 0;
    let mut start: usize = 0;
    let mut i: usize = 0;
    while i < ends.len()
        invariant
            i <= ends@.len(),
            start <= bytes@.len(),
            count <= start,
            contents(data) == bytes@,
            forall|a: int, b: int| 0 <= a < b < ends@.len() ==> ends@[a] < ends@[b],
            forall|k: int|
                0 <= k < ends@.len() ==> (#[trigger] ends@[k]) < bytes@.len()
                    && bytes@[ends@[k] as int] == NEWLINE,
            forall|at: int|
                0 <= at < bytes@.len() && #[trigger] bytes@[at] == NEWLINE ==> exists|k: int|
                    0 <= k < ends@.len() && #[trigger] ends@[k] == at,
            forall|k: int| 0 <= k < i ==> (#[trigger] ends@[k]) < start,
            forall|k: int| i <= k < ends@.len() ==> (#[trigger] ends@[k]) >= start,
            count + filled(records(bytes@, start as int)) == filled(log_records(contents(data))),
        decreases ends@.len() - i,
    {
        let end = ends[i];
        assert(end < bytes.len());
        proof {
            assert forall|k: int| start <= k < end implies bytes@[k] != NEWLINE by {
                if bytes@[k] == NEWLINE {
                    let m = choose|m: int| 0 <= m < ends@.len() && #[trigger] ends@[m] == k;
                    assert(m < i);
                }
            }
            lemma_line_end_single(bytes@, start as int, end as int);
            let here = records(bytes@, start as int);
            assert(here.drop_first() =~= records(bytes@, end + 1));
        }
        if !is_blank(vstd::slice::slice_subrange(bytes, start, end)) {
            count = count + 1;
        }
        start = end + 1;
        i = i + 1;
    }
    if start < bytes.len() {
        proof {
            lemma_line_end(bytes@, start as int);
            let end = line_end(bytes@, start as int);
            if end < bytes@.len() {
                assert(bytes@[end] == NEWLINE);
                let m = choose|m: int| 0 <= m < ends@.len() && #[trigger] ends@[m] == end;
                assert(ends@[m] < start);
            }
            let here = records(bytes@, start as int);
            assert(records(bytes@, bytes@.len() as int) =~= seq![]);
            assert(here.drop_first() =~= records(bytes@, bytes@.len() as int));
            assert(filled(here.drop_first()) == 0);
            assert(here[0].line == read_line(bytes@.subrange(start as int, bytes@.len() as int)));
        }
        if !is_blank(vstd::slice::slice_subrange(bytes, start, bytes.len())) {
            count = count + 1;
        }
    } else {
        assert(records(bytes@, start as int) =~= seq![]);
    }
    count
}

/// Builds the index of a field.
pub fn build_field_index(data: Option<&[u8]>, field: &str) -> (res: Result<FieldIndex, EngineError>)
    ensures
        match res {
            Ok(index) => all_text(log_records(contents(data))) && offsets_of(index) == field_index(
                log_records(contents(data)),
                field@,
            ),
            Err(e) => !all_text(log_records(contents(data))) && e is Io,
        },
{
    let mut index = new_field_index();
    let bytes = match data {
        Some(bytes) => bytes,
        None => {
            assert(offsets_of(index) =~= field_index(seq![], field@));
            return Ok(index);
        },
    };
    let ghost all = log_records(bytes@);
    let ghost mut done: int = 0;
    let mut pos: usize = 0;
    assert(all.skip(0) =~= all);
    while pos < bytes.len()
        invariant
            pos <= bytes@.len(),
            all == log_records(bytes@),
            contents(data) == bytes@,
            0 <= done <= all.len(),
            all.skip(done) == records(bytes@, pos as int),
            forall|k: int| 0 <= k < done ==> !((#[trigger] all[k]).line is NotText),
            forall|text: Seq<char>|
                #![trigger offsets_under(offsets_of(index), text)]
                offsets_under(offsets_of(index), text) + hits(all.skip(done), field@, text) == hits(
                    all,
                    field@,
                    text,
                ),
            forall|text: Seq<char>| #[trigger]
                offsets_of(index).contains_key(text) ==> offsets_of(index)[text].len() > 0,
        decreases bytes@.len() - pos,
    {
        let (line, next) = take_line(bytes, pos);
        let ghost here = all.skip(done);
        let ghost before = offsets_of(index);
        assert(here.drop_first() =~= records(bytes@, next as int));
        assert(all.skip(done + 1) =~= here.drop_first());
        assert(here[0] == all[done]);
        match decode_line(line) {
            Err(EngineError::Json(_)) => {},
            Err(e) => {
                return Err(e);
            },
            Ok(None) => {},
            Ok(Some(doc)) => {
                match get(&doc, field) {
                    Some(v) => {
                        let text = match to_string(v) {
                            Ok(text) => text,
                            Err(_) => String::new(),
                        };
                        push_offset(&mut index, text, pos as u64);
                    },
                    None => {},
                }
            },
        }
        proof {
            assert forall|text: Seq<char>|
                #![trigger offsets_under(offsets_of(index), text)]
                offsets_under(offsets_of(index), text) + hits(all.skip(done + 1), field@, text)
                    == hits(all, field@, text) by {
                assert(offsets_under(before, text) + hits(here, field@, text) == hits(
                    all,
                    field@,
                    text,
                ));
                let more = hits(all.skip(done + 1), field@, text);
                assert(offsets_under(before, text) + (seq![pos as u64] + more) =~= offsets_under(
                    before,
                    text,
                ).push(pos as u64) + more);
            }
            done = done + 1;
        }
        pos = next;
    }
    proof {
        assert(all.skip(done).len() == 0);
        let view = offsets_of(index);
        assert forall|text: Seq<char>| #[trigger]
            view.contains_key(text) == field_index(all, field@).contains_key(text) by {
            assert(offsets_under(view, text) + hits(all.skip(done), field@, text) =~= offsets_under(
                view,
                text,
            ));
        }
        assert forall|text: Seq<char>| #[trigger] view.contains_key(text) implies view[text]
            == field_index(all, field@)[text] by {
            assert(offsets_under(view, text) + hits(all.skip(done), field@, text) =~= offsets_under(
                view,
                text,
            ));
        }
        assert(view =~= field_index(all, field@));
    }
    Ok(index)
}

} // verus!

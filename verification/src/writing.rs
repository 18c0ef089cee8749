//! What appending to a log does: laws of lines, batches and indexes.

use crate::document::line_of;
use crate::index::{offsets_under, CollView};
use crate::json::{is_compact, json_parse, json_text, member, Json};
use crate::log::{
    all_text, field_index, field_text, hits, lemma_line_end, lemma_line_end_single, line_bytes,
    line_end, log_records, next_line, read_line, records, Line, Record, NEWLINE,
};
use crate::reading::index_matches;
use crate::text::{is_whitespace, trim};
use vstd::prelude::*;
use vstd::utf8::{
    encode_scalar, encode_utf8, last_continuation_byte, leading_byte_width_1, leading_byte_width_2,
    leading_byte_width_3, leading_byte_width_4, second_last_continuation_byte,
    third_last_continuation_byte, valid_utf8,
};

verus! {

/// A log in which every line is ended.
pub open spec fn complete(log: Seq<u8>) -> bool {
    log.len() == 0 || log.last() == NEWLINE
}

/// The lines in which documents are stored, one after the other.
pub open spec fn lines_of(docs: Seq<Json>) -> Seq<u8>
    decreases docs.len(),
{
    if docs.len() == 0 {
        seq![]
    } else {
        lines_of(docs.drop_last()) + line_of(docs.last())
    }
}

/// The indexes of a collection once a document is listed in them.
pub open spec fn index_after(index: CollView, doc: Json, offset: u64) -> CollView {
    Map::new(
        |field: Seq<char>| index.contains_key(field),
        |field: Seq<char>|
            match member(doc, field) {
                Some(v) => index[field].insert(
                    json_text(v),
                    offsets_under(index[field], json_text(v)).push(offset),
                ),
                None => index[field],
            },
    )
}

/// The indexes of a collection once documents are listed in them that are stored one after the
/// other from `base` on.
pub open spec fn index_after_all(index: CollView, docs: Seq<Json>, base: int) -> CollView
    decreases docs.len(),
{
    if docs.len() == 0 {
        index
    } else {
        index_after(
            index_after_all(index, docs.drop_last(), base),
            docs.last(),
            (base + lines_of(docs.drop_last()).len()) as u64,
        )
    }
}

/// The lines that documents take in a log, from `base` on.
pub open spec fn doc_records(docs: Seq<Json>, base: int) -> Seq<Record>
    decreases docs.len(),
{
    if docs.len() == 0 {
        seq![]
    } else {
        doc_records(docs.drop_last(), base).push(
            Record {
                offset: base + lines_of(docs.drop_last()).len(),
                line: Line::Doc(docs.last()),
            },
        )
    }
}

/// What is read in the line of a document.
pub open spec fn stored_line(doc: Json) -> Line {
    read_line(encode_utf8(json_text(doc)))
}

/// The lines that documents take in a log, from `base` on, as they are read.
pub open spec fn stored_records(docs: Seq<Json>, base: int) -> Seq<Record>
    decreases docs.len(),
{
    if docs.len() == 0 {
        seq![]
    } else {
        stored_records(docs.drop_last(), base).push(
            Record {
                offset: base + lines_of(docs.drop_last()).len(),
                line: stored_line(docs.last()),
            },
        )
    }
}

/// The text of each document is compact.
pub open spec fn all_compact(docs: Seq<Json>) -> bool {
    forall|i: int| 0 <= i < docs.len() ==> is_compact(json_text(#[trigger] docs[i]))
}

/// Each field has the same text in the document as in its line.
pub open spec fn listed_alike(doc: Json, fields: Set<Seq<char>>) -> bool {
    forall|f: Seq<char>| #[trigger]
        fields.contains(f) ==> field_text(stored_line(doc), f) == field_text(Line::Doc(doc), f)
}

/// Each field has the same text in each document as in its line.
pub open spec fn all_listed_alike(docs: Seq<Json>, fields: Set<Seq<char>>) -> bool {
    forall|i: int| 0 <= i < docs.len() ==> listed_alike(#[trigger] docs[i], fields)
}

/// A document that is read back from its text.
pub open spec fn reads_back(doc: Json) -> bool {
    is_compact(json_text(doc)) && json_parse(json_text(doc)) == Some(doc)
}

pub proof fn lemma_encode_concat(a: Seq<char>, b: Seq<char>)
    ensures
        encode_utf8(a + b) == encode_utf8(a) + encode_utf8(b),
    decreases a.len(),
{
    if a.len() == 0 {
        assert(a + b =~= b);
        assert(encode_utf8(a) + encode_utf8(b) =~= encode_utf8(b));
    } else {
        lemma_encode_concat(a.drop_first(), b);
        assert((a + b).drop_first() =~= a.drop_first() + b);
        assert(encode_utf8(a + b) =~= encode_utf8(a) + encode_utf8(b));
    }
}

proof fn lemma_char_bytes(c: char)
    requires
        c != '\n',
    ensures
        !encode_scalar(c as u32).contains(NEWLINE),
{
    let v = c as u32;
    assert(v <= 0x7f ==> leading_byte_width_1(v) == v) by (bit_vector);
    assert(leading_byte_width_2(v) >= 0x80) by (bit_vector);
    assert(leading_byte_width_3(v) >= 0x80) by (bit_vector);
    assert(leading_byte_width_4(v) >= 0x80) by (bit_vector);
    assert(last_continuation_byte(v) >= 0x80) by (bit_vector);
    assert(second_last_continuation_byte(v) >= 0x80) by (bit_vector);
    assert(third_last_continuation_byte(v) >= 0x80) by (bit_vector);
}

/// Text without a newline has no newline among its bytes.
proof fn lemma_one_line(text: Seq<char>)
    requires
        !text.contains('\n'),
    ensures
        !encode_utf8(text).contains(NEWLINE),
    decreases text.len(),
{
    if text.len() > 0 {
        assert(text.contains(text[0]));
        lemma_char_bytes(text[0]);
        let rest = text.drop_first();
        assert forall|i: int| 0 <= i < rest.len() implies rest[i] != '\n' by {
            assert(text.contains(text[i + 1]));
        }
        lemma_one_line(rest);
        let head = encode_scalar(text[0] as u32);
        let tail = encode_utf8(rest);
        assert forall|i: int| 0 <= i < (head + tail).len() implies (head + tail)[i] != NEWLINE by {
            if i < head.len() {
                assert(head.contains(head[i]));
            } else {
                assert(tail.contains(tail[i - head.len()]));
            }
        }
    }
}

/// Compact text has no white space around it.
proof fn lemma_compact_trims(text: Seq<char>)
    requires
        is_compact(text),
    ensures
        trim(text) == text,
{
    assert(!is_whitespace(text[0]));
    assert(!is_whitespace(text.last()));
}

/// The line of a document is its text and a newline.
pub(crate) proof fn lemma_line_of_text(doc: Json)
    ensures
        line_of(doc) == encode_utf8(json_text(doc)).push(NEWLINE),
{
    let text = json_text(doc);
    lemma_encode_concat(text, seq!['\n']);
    assert(text.push('\n') =~= text + seq!['\n']);
    assert(encode_utf8(seq!['\n']) =~= seq![NEWLINE]) by {
        assert(seq!['\n'].drop_first() =~= seq![]);
        assert(leading_byte_width_1(10) == 10) by (bit_vector);
        assert(encode_scalar('\n' as u32) =~= seq![NEWLINE]);
        assert(encode_utf8(Seq::<char>::empty()) =~= seq![]);
    }
    assert(encode_utf8(text) + seq![NEWLINE] =~= encode_utf8(text).push(NEWLINE));
}

/// The line of a document holds its text, and is read as what that text says.
pub proof fn lemma_line_of(doc: Json)
    requires
        is_compact(json_text(doc)),
    ensures
        line_of(doc) == encode_utf8(json_text(doc)).push(NEWLINE),
        !encode_utf8(json_text(doc)).contains(NEWLINE),
        read_line(encode_utf8(json_text(doc))) == match json_parse(json_text(doc)) {
            Some(j) => Line::Doc(j),
            None => Line::NotJson,
        },
{
    let text = json_text(doc);
    lemma_one_line(text);
    lemma_compact_trims(text);
    vstd::utf8::encode_utf8_valid_utf8(text);
    vstd::utf8::encode_utf8_decode_utf8(text);
    lemma_line_of_text(doc);
}

/// A line of a complete log is not touched by what is appended.
proof fn lemma_line_end_append(log: Seq<u8>, more: Seq<u8>, start: int)
    requires
        complete(log),
        0 <= start < log.len(),
    ensures
        line_end(log + more, start) == line_end(log, start),
        line_end(log, start) < log.len(),
    decreases log.len() - start,
{
    assert((log + more)[start] == log[start]);
    if log[start] != NEWLINE {
        assert(start + 1 < log.len());
        lemma_line_end_append(log, more, start + 1);
    }
}

/// Appending to a complete log leaves its lines as they are and adds those of what is appended.
pub proof fn lemma_records_append(log: Seq<u8>, more: Seq<u8>, start: int)
    requires
        complete(log),
        0 <= start <= log.len(),
    ensures
        records(log + more, start) == records(log, start) + records(log + more, log.len() as int),
    decreases log.len() - start,
{
    if start < log.len() {
        lemma_line_end_append(log, more, start);
        lemma_line_end(log, start);
        lemma_records_append(log, more, next_line(log, start));
        assert(line_bytes(log + more, start) =~= line_bytes(log, start));
        assert(next_line(log + more, start) == next_line(log, start));
        assert(records(log + more, start) =~= records(log, start) + records(
            log + more,
            log.len() as int,
        ));
    } else {
        assert(records(log, start) =~= seq![]);
        assert(records(log + more, start) =~= records(log, start) + records(
            log + more,
            log.len() as int,
        ));
    }
}

/// Appending one line to a complete log adds that line, after all others, and nothing else.
pub proof fn law_append_adds_one_line(log: Seq<u8>, line: Seq<u8>)
    requires
        complete(log),
        !line.contains(NEWLINE),
    ensures
        log_records(log + line.push(NEWLINE)) == log_records(log).push(
            Record { offset: log.len() as int, line: read_line(line) },
        ),
        complete(log + line.push(NEWLINE)),
{
    let more = line.push(NEWLINE);
    let data = log + more;
    lemma_records_append(log, more, 0);
    let start = log.len() as int;
    let end = start + line.len();
    assert(data[end] == NEWLINE);
    assert forall|k: int| start <= k < end implies data[k] != NEWLINE by {
        assert(line.contains(line[k - start]));
    }
    lemma_line_end_single(data, start, end);
    assert(line_bytes(data, start) =~= line);
    assert(records(data, end + 1) =~= seq![]);
    assert(records(data, start) =~= seq![Record { offset: start, line: read_line(line) }]);
    assert(data.last() == NEWLINE);
    assert(log_records(data) =~= log_records(log).push(
        Record { offset: start, line: read_line(line) },
    ));
}

/// A document that was stored is read back: its line follows all others, and holds the document.
pub proof fn law_read_gives_back_a_write(log: Seq<u8>, doc: Json)
    requires
        complete(log),
        reads_back(doc),
    ensures
        log_records(log + line_of(doc)) == log_records(log).push(
            Record { offset: log.len() as int, line: Line::Doc(doc) },
        ),
        complete(log + line_of(doc)),
{
    lemma_line_of(doc);
    law_append_adds_one_line(log, encode_utf8(json_text(doc)));
}

/// One more hit where the new line has the value.
pub(crate) proof fn lemma_hits_push(lines: Seq<Record>, last: Record, field: Seq<char>, text: Seq<char>)
    ensures
        hits(lines.push(last), field, text) == if field_text(last.line, field) == Some(text) {
            hits(lines, field, text).push(last.offset as u64)
        } else {
            hits(lines, field, text)
        },
    decreases lines.len(),
{
    let all = lines.push(last);
    if lines.len() == 0 {
        assert(all.drop_first() =~= seq![]);
        assert(hits(all.drop_first(), field, text) =~= seq![]);
        assert(seq![last.offset as u64] + Seq::<u64>::empty() =~= Seq::<u64>::empty().push(
            last.offset as u64,
        ));
    } else {
        lemma_hits_push(lines.drop_first(), last, field, text);
        assert(all.drop_first() =~= lines.drop_first().push(last));
        let rest = hits(lines.drop_first(), field, text);
        assert(seq![lines[0].offset as u64] + rest.push(last.offset as u64) =~= (
        seq![lines[0].offset as u64] + rest).push(last.offset as u64));
    }
}

/// Indexes that list what a log holds still do once a document is appended and listed, if the
/// indexed fields have the same text in the document as in its line.
pub proof fn law_indexes_follow_an_append(index: CollView, log: Seq<u8>, doc: Json)
    requires
        complete(log),
        log.len() <= u64::MAX,
        is_compact(json_text(doc)),
        listed_alike(doc, index.dom()),
        index_matches(index, log),
    ensures
        index_matches(index_after(index, doc, log.len() as u64), log + line_of(doc)),
{
    lemma_line_of(doc);
    law_append_adds_one_line(log, encode_utf8(json_text(doc)));
    let lines = log_records(log);
    let last = Record { offset: log.len() as int, line: stored_line(doc) };
    let after = index_after(index, doc, log.len() as u64);
    assert forall|field: Seq<char>| #[trigger] after.contains_key(field) implies after[field]
        == field_index(lines.push(last), field) by {
        assert(index.contains_key(field));
        assert(index.dom().contains(field));
        assert forall|text: Seq<char>|
            hits(lines.push(last), field, text) == if field_text(last.line, field) == Some(text) {
                (#[trigger] hits(lines, field, text)).push(log.len() as u64)
            } else {
                hits(lines, field, text)
            } by {
            lemma_hits_push(lines, last, field, text);
        }
        let new = field_index(lines.push(last), field);
        assert forall|text: Seq<char>| #[trigger]
            after[field].contains_key(text) == new.contains_key(text) by {
            lemma_hits_push(lines, last, field, text);
        }
        assert forall|text: Seq<char>| #[trigger]
            after[field].contains_key(text) implies after[field][text] == new[text] by {
            lemma_hits_push(lines, last, field, text);
            if hits(lines, field, text).len() == 0 {
                assert(hits(lines, field, text) =~= seq![]);
            }
        }
        assert(after[field] =~= new);
    }
}

/// A batch that was stored is read back: its documents follow all others, in order.
pub proof fn law_read_gives_back_a_batch(log: Seq<u8>, docs: Seq<Json>)
    requires
        complete(log),
        forall|i: int| 0 <= i < docs.len() ==> reads_back(#[trigger] docs[i]),
    ensures
        log_records(log + lines_of(docs)) == log_records(log) + doc_records(
            docs,
            log.len() as int,
        ),
        complete(log + lines_of(docs)),
    decreases docs.len(),
{
    if docs.len() == 0 {
        assert(log + lines_of(docs) =~= log);
        assert(log_records(log) + doc_records(docs, log.len() as int) =~= log_records(log));
    } else {
        let before = docs.drop_last();
        law_read_gives_back_a_batch(log, before);
        assert(reads_back(docs[docs.len() - 1]));
        let shorter = log + lines_of(before);
        law_read_gives_back_a_write(shorter, docs.last());
        assert(log + lines_of(docs) =~= shorter + line_of(docs.last()));
        assert(log_records(log + lines_of(docs)) =~= log_records(log) + doc_records(
            docs,
            log.len() as int,
        ));
    }
}

/// Appending a batch to a complete log adds its lines, after all others and in order, and nothing
/// else.
pub proof fn law_a_batch_adds_its_lines(log: Seq<u8>, docs: Seq<Json>)
    requires
        complete(log),
        all_compact(docs),
    ensures
        log_records(log + lines_of(docs)) == log_records(log) + stored_records(
            docs,
            log.len() as int,
        ),
        complete(log + lines_of(docs)),
    decreases docs.len(),
{
    if docs.len() == 0 {
        assert(log + lines_of(docs) =~= log);
        assert(log_records(log) + stored_records(docs, log.len() as int) =~= log_records(log));
    } else {
        let before = docs.drop_last();
        law_a_batch_adds_its_lines(log, before);
        assert(is_compact(json_text(docs[docs.len() - 1])));
        let shorter = log + lines_of(before);
        lemma_line_of(docs.last());
        law_append_adds_one_line(shorter, encode_utf8(json_text(docs.last())));
        assert(log + lines_of(docs) =~= shorter + line_of(docs.last()));
        assert(log_records(log + lines_of(docs)) =~= log_records(log) + stored_records(
            docs,
            log.len() as int,
        ));
    }
}

/// Listing documents adds no field.
pub proof fn lemma_same_fields(index: CollView, docs: Seq<Json>, base: int)
    ensures
        index_after_all(index, docs, base).dom() == index.dom(),
    decreases docs.len(),
{
    if docs.len() > 0 {
        lemma_same_fields(index, docs.drop_last(), base);
        assert(index_after_all(index, docs, base).dom() =~= index.dom());
    }
}

/// Indexes that list what a log holds still do once a batch is appended and listed, if the indexed
/// fields have the same text in the documents as in their lines.
pub proof fn law_indexes_follow_a_batch(index: CollView, log: Seq<u8>, docs: Seq<Json>)
    requires
        complete(log),
        log.len() + lines_of(docs).len() <= u64::MAX,
        all_compact(docs),
        all_listed_alike(docs, index.dom()),
        index_matches(index, log),
    ensures
        index_matches(index_after_all(index, docs, log.len() as int), log + lines_of(docs)),
    decreases docs.len(),
{
    if docs.len() == 0 {
        assert(log + lines_of(docs) =~= log);
    } else {
        let before = docs.drop_last();
        assert forall|i: int| 0 <= i < before.len() implies listed_alike(
            #[trigger] before[i],
            index.dom(),
        ) by {
            assert(before[i] == docs[i]);
        }
        law_indexes_follow_a_batch(index, log, before);
        law_a_batch_adds_its_lines(log, before);
        lemma_same_fields(index, before, log.len() as int);
        let last = docs.len() - 1;
        assert(is_compact(json_text(docs[last])));
        assert(listed_alike(docs[last], index.dom()));
        let shorter = log + lines_of(before);
        law_indexes_follow_an_append(
            index_after_all(index, before, log.len() as int),
            shorter,
            docs.last(),
        );
        assert(log + lines_of(docs) =~= shorter + line_of(docs.last()));
    }
}

/// In a document that is read back, all fields have the same text as in its line.
pub proof fn law_read_back_documents_are_listed_alike(doc: Json, fields: Set<Seq<char>>)
    requires
        reads_back(doc),
    ensures
        is_compact(json_text(doc)),
        listed_alike(doc, fields),
{
    lemma_line_of(doc);
}

/// Where the line that starts at `start` is ended, what is appended does not touch it.
proof fn lemma_ended_line(log: Seq<u8>, more: Seq<u8>, start: int)
    requires
        0 <= start < log.len(),
        line_end(log, start) < log.len(),
    ensures
        line_end(log + more, start) == line_end(log, start),
        line_bytes(log + more, start) == line_bytes(log, start),
        next_line(log + more, start) == next_line(log, start),
        start < next_line(log, start) <= log.len(),
{
    lemma_line_end(log, start);
    let end = line_end(log, start);
    assert forall|k: int| start <= k < end implies (log + more)[k] != NEWLINE by {
        assert((log + more)[k] == log[k]);
    }
    lemma_line_end_single(log + more, start, end);
    assert(line_bytes(log + more, start) =~= line_bytes(log, start));
}

/// The lines but the last from `start` on are not touched by what is appended.
proof fn lemma_lines_before_the_last(log: Seq<u8>, more: Seq<u8>, start: int)
    requires
        0 <= start < log.len(),
    ensures
        records(log, start).len() > 0,
        records(log, start).drop_last().is_prefix_of(records(log + more, start)),
    decreases log.len() - start,
{
    lemma_line_end(log, start);
    let here = records(log, start);
    let there = records(log + more, start);
    let next = next_line(log, start);
    if line_end(log, start) < log.len() && next < log.len() {
        lemma_ended_line(log, more, start);
        lemma_lines_before_the_last(log, more, next);
        let rest = records(log, next).drop_last();
        let later = records(log + more, next);
        assert(here.drop_last() =~= seq![here[0]] + rest);
        assert(there =~= seq![here[0]] + later);
        assert(here.drop_last() =~= there.take(here.drop_last().len() as int)) by {
            assert(rest =~= later.take(rest.len() as int));
        }
    } else {
        assert(records(log, log.len() as int) =~= seq![]);
        assert(here.drop_last() =~= seq![]);
        assert(here.drop_last() =~= there.take(0));
    }
}

/// A torn line spoils no other: whatever a log holds and whatever is appended to it, all lines but
/// the last stay as they were.
pub proof fn law_a_torn_line_spoils_no_other(log: Seq<u8>, more: Seq<u8>)
    requires
        log_records(log).len() > 0,
    ensures
        log_records(log).drop_last().is_prefix_of(log_records(log + more)),
{
    lemma_lines_before_the_last(log, more, 0);
}

/// Bytes that are no text are not made text by ASCII that follows.
proof fn lemma_not_text_stays(a: Seq<u8>, b: Seq<u8>)
    requires
        !valid_utf8(a),
        b.len() > 0 ==> b[0] < 0x80,
    ensures
        !valid_utf8(a + b),
{
    if b.len() == 0 {
        assert(a + b =~= a);
    } else if valid_utf8(a + b) {
        let at = a.len() as int;
        assert((a + b)[at] == b[0]);
        vstd::utf8::is_char_boundary_iff_is_leading_byte(a + b, at);
        vstd::utf8::valid_utf8_split(a + b, at);
        assert((a + b).subrange(0, at) =~= a);
    }
}

/// A log with a line that is no text keeps such a line, where what is appended starts with ASCII.
pub proof fn lemma_log_stays_no_text(log: Seq<u8>, more: Seq<u8>, start: int)
    requires
        0 <= start <= log.len(),
        more.len() > 0 ==> more[0] < 0x80,
        !all_text(records(log, start)),
    ensures
        !all_text(records(log + more, start)),
    decreases log.len() - start,
{
    let here = records(log, start);
    let there = records(log + more, start);
    let bad = choose|i: int| 0 <= i < here.len() && (#[trigger] here[i]).line is NotText;
    assert(start < log.len());
    lemma_line_end(log, start);
    let next = next_line(log, start);
    if line_end(log, start) < log.len() {
        lemma_ended_line(log, more, start);
        let later = records(log + more, next);
        assert(there =~= seq![here[0]] + later);
        if bad == 0 {
            assert(there[0].line is NotText);
        } else {
            assert(records(log, next)[bad - 1] == here[bad]);
            lemma_log_stays_no_text(log, more, next);
            let k = choose|k: int| 0 <= k < later.len() && (#[trigger] later[k]).line is NotText;
            assert(there[k + 1].line is NotText);
        }
    } else {
        assert(records(log, log.len() as int) =~= seq![]);
        assert(bad == 0);
        let data = log + more;
        lemma_line_end(data, start);
        let end = line_end(data, start);
        if end < log.len() {
            assert(data[end] == log[end]);
        }
        let added = more.take(end - log.len());
        assert(line_bytes(data, start) =~= line_bytes(log, start) + added);
        lemma_not_text_stays(line_bytes(log, start), added);
        assert(there[0].line is NotText);
    }
}

/// The lines of documents with compact texts start with ASCII.
pub proof fn lemma_lines_start_with_ascii(docs: Seq<Json>)
    requires
        all_compact(docs),
        docs.len() > 0,
    ensures
        lines_of(docs).len() > 0,
        lines_of(docs)[0] < 0x80,
    decreases docs.len(),
{
    let before = docs.drop_last();
    if before.len() > 0 {
        lemma_lines_start_with_ascii(before);
    } else {
        assert(lines_of(before) =~= seq![]);
        assert(is_compact(json_text(docs[0])));
        let text = json_text(docs[0]).push('\n');
        lemma_ascii_first(text);
        assert(lines_of(docs) =~= line_of(docs[0]));
    }
}

proof fn lemma_ascii_first(text: Seq<char>)
    requires
        text.len() > 0,
        '!' <= text[0] <= '~',
    ensures
        encode_utf8(text).len() > 0,
        encode_utf8(text)[0] < 0x80,
{
    let v = text[0] as u32;
    assert(v <= 0x7f ==> leading_byte_width_1(v) < 0x80) by (bit_vector);
    assert(encode_scalar(v).len() > 0);
}

/// The lines of documents with compact texts are text.
pub proof fn lemma_stored_records_are_text(docs: Seq<Json>, base: int)
    requires
        all_compact(docs),
    ensures
        all_text(stored_records(docs, base)),
    decreases docs.len(),
{
    if docs.len() > 0 {
        lemma_stored_records_are_text(docs.drop_last(), base);
        assert(is_compact(json_text(docs[docs.len() - 1])));
        lemma_line_of(docs.last());
    }
}

} // verus!

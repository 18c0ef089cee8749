//! Laws of filters and logs: which documents pass, which lines a log has, what an index lists, and
//! what a reading gives.

use crate::document::line_of;
use crate::filter::{demands, distinct_names, entries_map, passes, passes_any, Filter};
use crate::index::{offsets_under, CollView, FieldView};
use crate::json::{json_eq, json_of, json_parse, json_text, Json};
use crate::laws_values::{law_equality_is_reflexive, law_trimming_leaves_the_text};
use crate::log::{
    all_text, contents, field_index, field_text, filled, hits, lemma_line_end,
    lemma_line_end_single, line_at, line_bytes, line_end, log_records, read_line, readable, records,
    Line, Record, NEWLINE,
};
use crate::text::is_whitespace;
use crate::writing::{
    index_after, index_after_all, law_append_adds_one_line, lemma_hits_push, lemma_line_of_text,
    lemma_records_append, lemma_same_fields, lines_of,
};
use serde_json::Value;
use vstd::prelude::*;
use vstd::utf8::{decode_utf8, encode_utf8, valid_utf8};

verus! {

// ---- filters ----

/// A filter that demands nothing lets every object pass; no filter lets anything pass that is no
/// object. Without a filter everything passes.
pub proof fn law_no_demand_lets_objects_pass(doc: Json, filter: Map<Seq<char>, Json>)
    ensures
        passes(doc, Map::empty()) <==> doc is Object,
        !(doc is Object) ==> !passes(doc, filter),
        passes_any(doc, None),
        passes_any(doc, Some(filter)) <==> passes(doc, filter),
{
}

/// An object passes a filter of one demand exactly where it has the member with an equal value,
/// whatever other members it has.
pub proof fn law_one_demand(members: Map<Seq<char>, Json>, name: Seq<char>, value: Json)
    ensures
        passes(Json::Object(members), map![name => value]) <==> members.contains_key(name)
            && json_eq(members[name], value),
{
    let filter = map![name => value];
    assert(filter.contains_key(name));
}

/// An object passes a filter exactly where it has every member that the filter names, with a value
/// that equals the filter's.
pub proof fn law_all_demands(members: Map<Seq<char>, Json>, filter: Map<Seq<char>, Json>)
    ensures
        passes(Json::Object(members), filter) <==> forall|k: Seq<char>| #[trigger]
            filter.contains_key(k) ==> members.contains_key(k) && json_eq(members[k], filter[k]),
{
}

/// A member that the filter does not name decides nothing.
pub proof fn law_other_members_do_not_matter(
    members: Map<Seq<char>, Json>,
    name: Seq<char>,
    value: Json,
    filter: Map<Seq<char>, Json>,
)
    requires
        !filter.contains_key(name),
    ensures
        passes(Json::Object(members.insert(name, value)), filter) <==> passes(
            Json::Object(members),
            filter,
        ),
{
    let more = members.insert(name, value);
    law_all_demands(members, filter);
    law_all_demands(more, filter);
    assert forall|k: Seq<char>| #[trigger] filter.contains_key(k) implies (more.contains_key(k)
        && json_eq(more[k], filter[k]) <==> members.contains_key(k) && json_eq(
        members[k],
        filter[k],
    )) by {
        assert(k != name);
    }
    if passes(Json::Object(more), filter) {
        assert forall|k: Seq<char>| #[trigger] filter.contains_key(k) implies members.contains_key(
            k,
        ) && json_eq(members[k], filter[k]) by {
            assert(more.contains_key(k) && json_eq(more[k], filter[k]));
        }
    }
}

/// Every object passes the filter that demands what the object holds.
pub proof fn law_an_object_meets_its_own_members(members: Map<Seq<char>, Json>)
    ensures
        passes(Json::Object(members), members),
{
    assert forall|k: Seq<char>| #[trigger] members.contains_key(k) implies json_eq(
        members[k],
        members[k],
    ) by {
        law_equality_is_reflexive(members[k]);
    }
    law_all_demands(members, members);
}

/// What an optional filter demands is what the filter demands.
pub proof fn law_demands(filter: Filter)
    ensures
        demands(Some(&filter)) == Some(filter@),
        demands(None) is None,
{
}

/// A list of names and values makes the filter that has each value under its name.
pub proof fn law_entries_make_a_filter(entries: Seq<(String, Value)>, name: String, value: Value)
    requires
        forall|i: int, j: int|
            0 <= i < j < entries.len() ==> (#[trigger] entries[i]).0@ != (#[trigger] entries[j]).0@,
        forall|i: int| 0 <= i < entries.len() ==> (#[trigger] entries[i]).0@ != name@,
    ensures
        entries_map(Seq::empty()) == Map::<Seq<char>, Json>::empty(),
        entries_map(entries.push((name, value))) == entries_map(entries).insert(
            name@,
            json_of(value),
        ),
        distinct_names(entries.push((name, value))),
{
    assert(entries_map(Seq::empty()) =~= Map::<Seq<char>, Json>::empty());
    let more = entries.push((name, value));
    let before = entries_map(entries);
    let after = entries_map(more);
    let at = entries.len() as int;
    assert(more[at] == (name, value));
    assert forall|k: Seq<char>| after.contains_key(k) == before.insert(
        name@,
        json_of(value),
    ).contains_key(k) by {
        if before.contains_key(k) {
            let c = choose|c: int| 0 <= c < entries.len() && (#[trigger] entries[c]).0@ == k;
            assert(more[c].0@ == k);
        }
        if k == name@ {
            assert(more[at].0@ == k);
        }
        if after.contains_key(k) && k != name@ {
            let c = choose|c: int| 0 <= c < more.len() && (#[trigger] more[c]).0@ == k;
            assert(entries[c].0@ == k);
        }
    }
    assert forall|k: Seq<char>| after.contains_key(k) implies after[k] == before.insert(
        name@,
        json_of(value),
    )[k] by {
        let c = choose|c: int| 0 <= c < more.len() && (#[trigger] more[c]).0@ == k;
        if k == name@ {
            assert(c == at);
        } else {
            assert(more[c] == entries[c]);
            let d = choose|d: int| 0 <= d < entries.len() && (#[trigger] entries[d]).0@ == k;
            assert(entries[d].0@ == entries[c].0@);
            assert(c == d);
        }
    }
    assert(after =~= before.insert(name@, json_of(value)));
}

// ---- lines ----

/// A log consists of its lines: an empty log has none, and a line that is written behind a newline
/// or first of all is one line more, which starts where the log ended, whether or not a newline
/// ends it.
pub proof fn law_a_line_more(log: Seq<u8>, line: Seq<u8>)
    requires
        log.len() == 0 || log.last() == 10,
        !line.contains(10u8),
    ensures
        log_records(Seq::empty()).len() == 0,
        log_records(log + line.push(10u8)) == log_records(log).push(
            Record { offset: log.len() as int, line: read_line(line) },
        ),
        line.len() > 0 ==> log_records(log + line) == log_records(log).push(
            Record { offset: log.len() as int, line: read_line(line) },
        ),
{
    law_append_adds_one_line(log, line);
    let start = log.len() as int;
    if line.len() > 0 {
        let data = log + line;
        lemma_records_append(log, line, 0);
        lemma_line_end(data, start);
        if line_end(data, start) < data.len() {
            assert(line.contains(line[line_end(data, start) - start]));
        }
        assert(line_bytes(data, start) =~= line);
        assert(records(data, data.len() as int) =~= seq![]);
        assert(records(data, start) =~= seq![Record { offset: start, line: read_line(line) }]);
        assert(log_records(data) =~= log_records(log).push(
            Record { offset: start, line: read_line(line) },
        ));
    }
}

/// A line of white space is blank; one that is a value's text between white space holds that
/// value; other text is no JSON, and what is not UTF-8 is no text.
pub proof fn law_a_line_says_what_its_text_says(
    bytes: Seq<u8>,
    before: Seq<char>,
    text: Seq<char>,
    after: Seq<char>,
)
    requires
        valid_utf8(bytes) ==> decode_utf8(bytes) == before + text + after,
        forall|i: int| 0 <= i < before.len() ==> is_whitespace(#[trigger] before[i]),
        forall|i: int| 0 <= i < after.len() ==> is_whitespace(#[trigger] after[i]),
        text.len() > 0 ==> !is_whitespace(text[0]) && !is_whitespace(text.last()),
    ensures
        read_line(bytes) is NotText <==> !valid_utf8(bytes),
        valid_utf8(bytes) && text.len() == 0 ==> read_line(bytes) is Blank,
        valid_utf8(bytes) && text.len() > 0 ==> match json_parse(text) {
            Some(j) => read_line(bytes) == Line::Doc(j),
            None => read_line(bytes) is NotJson,
        },
{
    if valid_utf8(bytes) {
        law_trimming_leaves_the_text(before, text, after);
    }
}

/// What is read at an offset is the line that starts there, up to the next newline or the end.
pub proof fn law_a_line_is_read_at_its_offset(before: Seq<u8>, line: Seq<u8>, after: Seq<u8>)
    requires
        !line.contains(10u8),
        before.len() + line.len() + after.len() < u64::MAX,
    ensures
        line_at(before + line.push(10u8) + after, before.len() as u64) == read_line(line),
        line.len() > 0 ==> line_at(before + line, before.len() as u64) == read_line(line),
{
    let start = before.len() as int;
    let data = before + line.push(10u8) + after;
    assert forall|k: int| start <= k < start + line.len() implies data[k] != NEWLINE by {
        assert(data[k] == line[k - start]);
        assert(line.contains(line[k - start]));
    }
    assert(data[start + line.len()] == 10);
    lemma_line_end_single(data, start, start + line.len());
    assert(line_bytes(data, start) =~= line);
    let short = before + line;
    lemma_line_end(short, start);
    if line_end(short, start) < short.len() {
        assert(line.contains(line[line_end(short, start) - start]));
    }
    assert(line_bytes(short, start) =~= line);
}

/// Past the end of a log nothing is read.
pub proof fn law_nothing_stands_past_the_end(data: Seq<u8>, offset: u64)
    requires
        offset >= data.len(),
    ensures
        line_at(data, offset) is Blank,
{
}

/// A missing file holds nothing; one that is there holds its bytes.
pub proof fn law_contents(bytes: &[u8])
    ensures
        contents(None).len() == 0,
        contents(Some(bytes)) == bytes@,
{
}

/// The lines that are not blank are counted, one by one.
pub proof fn law_lines_are_counted(lines: Seq<Record>, offset: int, line: Line)
    ensures
        filled(Seq::empty()) == 0,
        line is Blank ==> filled(lines.push(Record { offset, line })) == filled(lines),
        !(line is Blank) ==> filled(lines.push(Record { offset, line })) == filled(lines) + 1,
    decreases lines.len(),
{
    let all = lines.push(Record { offset, line });
    if lines.len() > 0 {
        law_lines_are_counted(lines.drop_first(), offset, line);
        assert(all.drop_first() =~= lines.drop_first().push(Record { offset, line }));
    } else {
        assert(all.drop_first() =~= Seq::empty());
        assert(filled(all.drop_first()) == 0);
    }
}

/// A log is text where every line is, and readable where every line is blank or a document.
pub proof fn law_every_line_counts(lines: Seq<Record>, offset: int, line: Line)
    ensures
        all_text(Seq::empty()),
        readable(Seq::empty()),
        all_text(lines.push(Record { offset, line })) <==> all_text(lines) && !(line is NotText),
        readable(lines.push(Record { offset, line })) <==> readable(lines) && (line is Blank
            || line is Doc),
{
    let all = lines.push(Record { offset, line });
    let at = lines.len() as int;
    assert(all[at] == Record { offset, line });
    assert forall|i: int| 0 <= i < lines.len() implies #[trigger] lines[i] == all[i] by {}
    if all_text(all) {
        assert(!(all[at].line is NotText));
        assert forall|i: int| 0 <= i < lines.len() implies !((
        #[trigger] lines[i]).line is NotText) by {
            assert(!(all[i].line is NotText));
        }
    }
    if readable(all) {
        assert(all[at].line is Blank || all[at].line is Doc);
        assert forall|i: int| 0 <= i < lines.len() implies (#[trigger] lines[i]).line is Blank
            || lines[i].line is Doc by {
            assert(all[i].line is Blank || all[i].line is Doc);
        }
    }
}

// ---- indexes ----

/// The index of a field lists every stored object that has the field, whatever other members it
/// has: under the text of the field's value stands where the object's line starts.
pub proof fn law_an_index_lists_every_object(
    lines: Seq<Record>,
    i: int,
    members: Map<Seq<char>, Json>,
    field: Seq<char>,
)
    requires
        0 <= i < lines.len(),
        lines[i].line == Line::Doc(Json::Object(members)),
        members.contains_key(field),
    ensures
        field_index(lines, field).contains_key(json_text(members[field])),
        field_index(lines, field)[json_text(members[field])].contains(lines[i].offset as u64),
    decreases lines.len(),
{
    let text = json_text(members[field]);
    let rest = lines.drop_first();
    let first = seq![lines[0].offset as u64];
    if i == 0 {
        assert(hits(lines, field, text) == first + hits(rest, field, text));
        assert(hits(lines, field, text)[0] == lines[0].offset as u64);
    } else {
        assert(rest[i - 1] == lines[i]);
        law_an_index_lists_every_object(rest, i - 1, members, field);
        let inner = hits(rest, field, text);
        let c = choose|c: int| 0 <= c < inner.len() && inner[c] == lines[i].offset as u64;
        if field_text(lines[0].line, field) == Some(text) {
            assert(hits(lines, field, text)[c + 1] == lines[i].offset as u64);
        } else {
            assert(hits(lines, field, text)[c] == lines[i].offset as u64);
        }
    }
}

/// The index of a field lists nothing but the objects that have the field, each under the text of
/// the field's value.
pub proof fn law_an_index_lists_nothing_else(
    lines: Seq<Record>,
    field: Seq<char>,
    text: Seq<char>,
    at: u64,
)
    requires
        field_index(lines, field).contains_key(text),
        field_index(lines, field)[text].contains(at),
    ensures
        exists|i: int|
            0 <= i < lines.len() && (#[trigger] lines[i]).offset as u64 == at && (
            lines[i].line matches Line::Doc(j) && j matches Json::Object(m) && m.contains_key(field)
                && json_text(m[field]) == text),
    decreases lines.len(),
{
    let all = hits(lines, field, text);
    if lines.len() > 0 {
        let rest = lines.drop_first();
        let inner = hits(rest, field, text);
        let c = choose|c: int| 0 <= c < all.len() && all[c] == at;
        let here = field_text(lines[0].line, field) == Some(text);
        if here && c == 0 {
            assert(lines[0].offset as u64 == at);
        } else {
            if here {
                assert(all == seq![lines[0].offset as u64] + inner);
                assert(inner[c - 1] == at);
            } else {
                assert(inner[c] == at);
            }
            assert(field_index(rest, field).contains_key(text));
            law_an_index_lists_nothing_else(rest, field, text, at);
            let i = choose|i: int|
                0 <= i < rest.len() && (#[trigger] rest[i]).offset as u64 == at && (
                rest[i].line matches Line::Doc(j) && j matches Json::Object(m) && m.contains_key(
                    field,
                ) && json_text(m[field]) == text);
            assert(lines[i + 1] == rest[i]);
        }
    }
}

/// One line more in a log: where it holds an object with the field, its offset is listed last
/// under the text of the value, and all else stays; any other line changes nothing.
pub proof fn law_an_index_grows_by_one(
    lines: Seq<Record>,
    offset: int,
    line: Line,
    field: Seq<char>,
    text: Seq<char>,
)
    ensures
        field_index(Seq::empty(), field) == Map::<Seq<char>, Seq<u64>>::empty(),
        ({
            let before = field_index(lines, field);
            let after = field_index(lines.push(Record { offset, line }), field);
            if line matches Line::Doc(j) && j matches Json::Object(m) && m.contains_key(field)
                && json_text(m[field]) == text {
                &&& after.contains_key(text)
                &&& before.contains_key(text) ==> after[text] == before[text].push(offset as u64)
                &&& !before.contains_key(text) ==> after[text] == seq![offset as u64]
            } else {
                &&& after.contains_key(text) <==> before.contains_key(text)
                &&& before.contains_key(text) ==> after[text] == before[text]
            }
        }),
{
    assert(field_index(Seq::empty(), field) =~= Map::<Seq<char>, Seq<u64>>::empty());
    let last = Record { offset, line };
    lemma_hits_push(lines, last, field, text);
    if hits(lines, field, text).len() == 0 {
        assert(hits(lines, field, text).push(offset as u64) =~= seq![offset as u64]);
    }
}

/// The list under a text is what was put there; under a text with no list there are no offsets.
pub proof fn law_offsets_under_a_text(index: FieldView, text: Seq<char>, list: Seq<u64>)
    ensures
        offsets_under(index.insert(text, list), text) == list,
        offsets_under(index.remove(text), text).len() == 0,
        index.contains_key(text) ==> offsets_under(index, text) == index[text],
{
}

/// Listing an object in the indexes of a collection: in the index of a field that the object has,
/// its offset comes last under the text of the value, and nothing else changes.
pub proof fn law_listing_an_object(
    index: CollView,
    members: Map<Seq<char>, Json>,
    offset: u64,
    field: Seq<char>,
    text: Seq<char>,
)
    requires
        index.contains_key(field),
    ensures
        ({
            let before = index[field];
            let after = index_after(index, Json::Object(members), offset);
            &&& after.dom() == index.dom()
            &&& if members.contains_key(field) && json_text(members[field]) == text {
                &&& after[field].contains_key(text)
                &&& before.contains_key(text) ==> after[field][text] == before[text].push(offset)
                &&& !before.contains_key(text) ==> after[field][text] == seq![offset]
            } else {
                &&& after[field].contains_key(text) <==> before.contains_key(text)
                &&& before.contains_key(text) ==> after[field][text] == before[text]
            }
        }),
{
    let after = index_after(index, Json::Object(members), offset);
    assert(after.dom() =~= index.dom());
    assert(Seq::<u64>::empty().push(offset) =~= seq![offset]);
}

/// Only objects are listed.
pub proof fn law_listing_anything_else(index: CollView, doc: Json, offset: u64)
    requires
        !(doc is Object),
    ensures
        index_after(index, doc, offset) == index,
{
    assert(index_after(index, doc, offset) =~= index);
}

/// Documents are listed one after the other, each where its line starts behind those before it.
pub proof fn law_listing_documents(index: CollView, docs: Seq<Json>, doc: Json, base: int)
    ensures
        index_after_all(index, Seq::empty(), base) == index,
        index_after_all(index, docs.push(doc), base) == index_after(
            index_after_all(index, docs, base),
            doc,
            (base + lines_of(docs).len()) as u64,
        ),
{
    assert(docs.push(doc).drop_last() =~= docs);
}

/// Every object that is listed with others is found in the index of each field that it has: under
/// the text of its value, where its line starts.
pub proof fn law_every_object_of_a_batch_is_listed(
    index: CollView,
    docs: Seq<Json>,
    base: int,
    i: int,
    members: Map<Seq<char>, Json>,
    field: Seq<char>,
)
    requires
        index.contains_key(field),
        0 <= i < docs.len(),
        docs[i] == Json::Object(members),
        members.contains_key(field),
    ensures
        ({
            let after = index_after_all(index, docs, base);
            let text = json_text(members[field]);
            &&& after.contains_key(field)
            &&& after[field].contains_key(text)
            &&& after[field][text].contains((base + lines_of(docs.take(i)).len()) as u64)
        }),
    decreases docs.len(),
{
    let less = docs.drop_last();
    let at = (base + lines_of(docs.take(i)).len()) as u64;
    let text = json_text(members[field]);
    let before = index_after_all(index, less, base);
    let after = index_after_all(index, docs, base);
    let last = (base + lines_of(less).len()) as u64;
    lemma_same_fields(index, less, base);
    assert(before.contains_key(field));
    assert(after == index_after(before, docs.last(), last));
    if i == docs.len() - 1 {
        assert(docs.take(i) =~= less);
        law_listing_an_object(before, members, last, field, text);
        let list = after[field][text];
        assert(list[list.len() - 1] == at);
    } else {
        assert(less[i] == docs[i]);
        assert(less.take(i) =~= docs.take(i));
        law_every_object_of_a_batch_is_listed(index, less, base, i, members, field);
        let list = before[field][text];
        let c = choose|c: int| 0 <= c < list.len() && list[c] == at;
        if let Json::Object(others) = docs.last() {
            law_listing_an_object(before, others, last, field, text);
        } else {
            law_listing_anything_else(before, docs.last(), last);
        }
        assert(after[field][text][c] == at);
    }
}

/// Each document takes a line: its text in UTF-8 and a newline, behind the lines before it.
pub proof fn law_documents_take_a_line_each(docs: Seq<Json>, doc: Json)
    ensures
        line_of(doc) == encode_utf8(json_text(doc)).push(10u8),
        lines_of(Seq::empty()).len() == 0,
        lines_of(docs.push(doc)) == lines_of(docs) + line_of(doc),
{
    assert(docs.push(doc).drop_last() =~= docs);
    lemma_line_of_text(doc);
}

} // verus!

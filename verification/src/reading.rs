//! What reading a log gives: laws of scans, pages and lookups.

use crate::error::EngineError;
use crate::filter::{entries_map, passes, passes_any, Filter};
use crate::index::{
    field_behind, fields_of, get_field, get_offsets, has_field, offsets_under, CollIndexes,
    CollView,
};
use crate::json::{
    has_zero, json_eq, json_of, json_text, lemma_eq_is_identity, member, to_string, zero_free, Json,
};
use crate::log::{
    docs_in, field_index, field_text, filled, hits, lemma_line_end, line_at, log_records, next_line,
    readable, records, scan_records, Fault, Line, Record,
};
use crate::offsets::{ascending, in_all, intersect, lemma_ascending_unique, page};
use vstd::prelude::*;

verus! {

/// The documents in the lines that pass a filter.
pub open spec fn matching(lines: Seq<Record>, filter: Option<Map<Seq<char>, Json>>) -> Seq<Json>
    decreases lines.len(),
{
    if lines.len() == 0 {
        seq![]
    } else {
        let rest = matching(lines.drop_first(), filter);
        match lines[0].line {
            Line::Doc(j) => if passes_any(j, filter) {
                seq![j] + rest
            } else {
                rest
            },
            _ => rest,
        }
    }
}

/// Where those documents start.
pub open spec fn matching_offsets(
    lines: Seq<Record>,
    filter: Option<Map<Seq<char>, Json>>,
) -> Seq<u64>
    decreases lines.len(),
{
    if lines.len() == 0 {
        seq![]
    } else {
        let rest = matching_offsets(lines.drop_first(), filter);
        match lines[0].line {
            Line::Doc(j) => if passes_any(j, filter) {
                seq![lines[0].offset as u64] + rest
            } else {
                rest
            },
            _ => rest,
        }
    }
}

/// A scan that reaches its end gives a page of the documents that pass: without the first `skip`,
/// and of the rest the first `limit`, but never fewer than one; without a limit, all of the rest.
/// It fails only over lines that cannot be read.
pub proof fn law_scan_is_a_page(
    lines: Seq<Record>,
    filter: Option<Map<Seq<char>, Json>>,
    skip: nat,
    limit: Option<nat>,
)
    ensures
        match scan_records(lines, filter, skip, limit) {
            Ok(docs) => docs == page(
                matching(lines, filter),
                skip,
                match limit {
                    Some(n) => if n == 0 {
                        1
                    } else {
                        n
                    },
                    None => matching(lines, filter).len(),
                },
            ),
            Err(_) => !readable(lines),
        },
    decreases lines.len(),
{
    let all = matching(lines, filter);
    let count = match limit {
        Some(n) => if n == 0 {
            1
        } else {
            n
        },
        None => all.len(),
    };
    if lines.len() > 0 {
        let rest = lines.drop_first();
        let others = matching(rest, filter);
        assert(!readable(rest) ==> !readable(lines)) by {
            if readable(lines) {
                assert forall|i: int| 0 <= i < rest.len() implies (#[trigger] rest[i]).line is Blank
                    || rest[i].line is Doc by {
                    assert(rest[i] == lines[i + 1]);
                }
            }
        }
        match lines[0].line {
            Line::Doc(j) => {
                if !passes_any(j, filter) {
                    law_scan_is_a_page(rest, filter, skip, limit);
                } else if skip > 0 {
                    law_scan_is_a_page(rest, filter, (skip - 1) as nat, limit);
                    match limit {
                        Some(n) => {
                            assert(page(all, skip, count) =~= page(
                                others,
                                (skip - 1) as nat,
                                count,
                            ));
                        },
                        None => {
                            assert(page(all, skip, count) =~= page(
                                others,
                                (skip - 1) as nat,
                                others.len(),
                            ));
                        },
                    }
                } else {
                    match limit {
                        Some(n) => {
                            if n <= 1 {
                                assert(page(all, 0, 1) =~= seq![j]);
                            } else {
                                law_scan_is_a_page(rest, filter, 0, Some((n - 1) as nat));
                                assert(page(all, 0, n) =~= seq![j] + page(
                                    others,
                                    0,
                                    (n - 1) as nat,
                                ));
                            }
                        },
                        None => {
                            law_scan_is_a_page(rest, filter, 0, None);
                            assert(page(all, 0, count) =~= seq![j] + page(
                                others,
                                0,
                                others.len(),
                            ));
                        },
                    }
                }
            },
            Line::Blank => {
                law_scan_is_a_page(rest, filter, skip, limit);
            },
            _ => {
                assert(!(lines[0].line is Blank || lines[0].line is Doc));
            },
        }
    } else {
        assert(page(all, skip, count) =~= seq![]);
    }
}

/// Lines start one after the other, inside the data, and each is found again at its offset.
pub proof fn lemma_records(data: Seq<u8>, start: int)
    requires
        0 <= start,
        data.len() <= u64::MAX,
    ensures
        forall|i: int|
            0 <= i < records(data, start).len() ==> start <= (#[trigger] records(
                data,
                start,
            )[i]).offset < data.len(),
        forall|i: int, j: int|
            0 <= i < j < records(data, start).len() ==> (#[trigger] records(data, start)[i]).offset
                < (#[trigger] records(data, start)[j]).offset,
        forall|i: int|
            0 <= i < records(data, start).len() ==> (#[trigger] records(data, start)[i]).line
                == line_at(data, records(data, start)[i].offset as u64),
    decreases data.len() - start,
{
    if start < data.len() {
        lemma_line_end(data, start);
        lemma_records(data, next_line(data, start));
        let all = records(data, start);
        let rest = records(data, next_line(data, start));
        assert(forall|i: int| 0 < i < all.len() ==> #[trigger] all[i] == rest[i - 1]);
    }
}

/// What a list of hits holds.
proof fn lemma_hits(lines: Seq<Record>, field: Seq<char>, text: Seq<char>, offset: u64)
    ensures
        hits(lines, field, text).contains(offset) <==> exists|i: int|
            0 <= i < lines.len() && field_text((#[trigger] lines[i]).line, field) == Some(text)
                && lines[i].offset as u64 == offset,
    decreases lines.len(),
{
    if lines.len() > 0 {
        let rest = lines.drop_first();
        lemma_hits(rest, field, text, offset);
        let here = hits(lines, field, text);
        let later = hits(rest, field, text);
        if here.contains(offset) {
            if field_text(lines[0].line, field) == Some(text) {
                let k = choose|k: int| 0 <= k < here.len() && here[k] == offset;
                if k == 0 {
                    assert(lines[0].offset as u64 == offset);
                } else {
                    assert(later[k - 1] == offset);
                    let i = choose|i: int|
                        0 <= i < rest.len() && field_text((#[trigger] rest[i]).line, field) == Some(
                            text,
                        ) && rest[i].offset as u64 == offset;
                    assert(lines[i + 1] == rest[i]);
                }
            } else {
                let i = choose|i: int|
                    0 <= i < rest.len() && field_text((#[trigger] rest[i]).line, field) == Some(
                        text,
                    ) && rest[i].offset as u64 == offset;
                assert(lines[i + 1] == rest[i]);
            }
        }
        if exists|i: int|
            0 <= i < lines.len() && field_text((#[trigger] lines[i]).line, field) == Some(text)
                && lines[i].offset as u64 == offset {
            let i = choose|i: int|
                0 <= i < lines.len() && field_text((#[trigger] lines[i]).line, field) == Some(text)
                    && lines[i].offset as u64 == offset;
            if i == 0 {
                assert(here[0] == offset);
            } else {
                assert(rest[i - 1] == lines[i]);
                assert(later.contains(offset));
                let k = choose|k: int| 0 <= k < later.len() && later[k] == offset;
                if field_text(lines[0].line, field) == Some(text) {
                    assert(here[k + 1] == offset);
                } else {
                    assert(here[k] == offset);
                }
            }
        }
    }
}

/// What a list of matching offsets holds, and its order.
proof fn lemma_matching_offsets(lines: Seq<Record>, filter: Option<Map<Seq<char>, Json>>)
    requires
        forall|i: int| 0 <= i < lines.len() ==> 0 <= (#[trigger] lines[i]).offset <= u64::MAX,
        forall|i: int, j: int|
            0 <= i < j < lines.len() ==> (#[trigger] lines[i]).offset < (
            #[trigger] lines[j]).offset,
    ensures
        forall|i: int, j: int|
            0 <= i < j < matching_offsets(lines, filter).len() ==> matching_offsets(
                lines,
                filter,
            )[i] < matching_offsets(lines, filter)[j],
        forall|offset: u64|
            matching_offsets(lines, filter).contains(offset) <==> exists|i: int|
                0 <= i < lines.len() && ((#[trigger] lines[i]).line matches Line::Doc(d)
                    && passes_any(d, filter)) && lines[i].offset == offset,
    decreases lines.len(),
{
    if lines.len() > 0 {
        let rest = lines.drop_first();
        assert(forall|i: int| 0 <= i < rest.len() ==> #[trigger] rest[i] == lines[i + 1]);
        lemma_matching_offsets(rest, filter);
        let here = matching_offsets(lines, filter);
        let later = matching_offsets(rest, filter);
        let first = lines[0].line matches Line::Doc(d) && passes_any(d, filter);
        assert forall|offset: u64| later.contains(offset) implies lines[0].offset < offset by {
            let i = choose|i: int|
                0 <= i < rest.len() && ((#[trigger] rest[i]).line matches Line::Doc(d)
                    && passes_any(d, filter)) && rest[i].offset == offset;
            assert(lines[0].offset < lines[i + 1].offset);
        }
        assert forall|i: int, j: int| 0 <= i < j < here.len() implies here[i] < here[j] by {
            if first {
                if i == 0 {
                    assert(later[j - 1] == here[j]);
                    assert(later.contains(here[j]));
                } else {
                    assert(later[i - 1] == here[i]);
                    assert(later[j - 1] == here[j]);
                }
            }
        }
        assert forall|offset: u64| here.contains(offset) <==> exists|i: int|
            0 <= i < lines.len() && ((#[trigger] lines[i]).line matches Line::Doc(d) && passes_any(
                d,
                filter,
            )) && lines[i].offset == offset by {
            if here.contains(offset) {
                let k = choose|k: int| 0 <= k < here.len() && here[k] == offset;
                if first && k == 0 {
                    assert(lines[0].offset == offset);
                } else {
                    assert(later[if first { k - 1 } else { k }] == offset);
                    assert(later.contains(offset));
                    let i = choose|i: int|
                        0 <= i < rest.len() && ((#[trigger] rest[i]).line matches Line::Doc(d)
                            && passes_any(d, filter)) && rest[i].offset == offset;
                    assert(lines[i + 1] == rest[i]);
                }
            }
            if exists|i: int|
                0 <= i < lines.len() && ((#[trigger] lines[i]).line matches Line::Doc(d)
                    && passes_any(d, filter)) && lines[i].offset == offset {
                let i = choose|i: int|
                    0 <= i < lines.len() && ((#[trigger] lines[i]).line matches Line::Doc(d)
                        && passes_any(d, filter)) && lines[i].offset == offset;
                if i == 0 {
                    assert(here[0] == offset);
                } else {
                    assert(rest[i - 1] == lines[i]);
                    assert(later.contains(offset));
                    let k = choose|k: int| 0 <= k < later.len() && later[k] == offset;
                    assert(here[if first { k + 1 } else { k }] == offset);
                }
            }
        }
    }
}

/// Each matching document stands at its matching offset.
proof fn lemma_matching_pairs(
    data: Seq<u8>,
    lines: Seq<Record>,
    filter: Option<Map<Seq<char>, Json>>,
)
    requires
        forall|i: int|
            0 <= i < lines.len() ==> (#[trigger] lines[i]).line == line_at(
                data,
                lines[i].offset as u64,
            ),
    ensures
        matching(lines, filter).len() == matching_offsets(lines, filter).len(),
        forall|i: int|
            0 <= i < matching(lines, filter).len() ==> line_at(
                data,
                #[trigger] matching_offsets(lines, filter)[i],
            ) == Line::Doc(matching(lines, filter)[i]),
    decreases lines.len(),
{
    if lines.len() > 0 {
        let rest = lines.drop_first();
        assert(forall|i: int| 0 <= i < rest.len() ==> #[trigger] rest[i] == lines[i + 1]);
        lemma_matching_pairs(data, rest, filter);
        let offsets = matching_offsets(lines, filter);
        let docs = matching(lines, filter);
        let first = lines[0].line matches Line::Doc(d) && passes_any(d, filter);
        assert(lines[0].line == line_at(data, lines[0].offset as u64));
        assert forall|i: int| 0 <= i < docs.len() implies line_at(data, #[trigger] offsets[i])
            == Line::Doc(docs[i]) by {
            if first {
                if i > 0 {
                    assert(offsets[i] == matching_offsets(rest, filter)[i - 1]);
                }
            } else {
                assert(offsets[i] == matching_offsets(rest, filter)[i]);
            }
        }
    }
}

/// Lines that are all documents give those documents.
proof fn lemma_docs_in(lines: Seq<Line>, docs: Seq<Json>)
    requires
        lines.len() == docs.len(),
        forall|i: int| 0 <= i < lines.len() ==> #[trigger] lines[i] == Line::Doc(docs[i]),
    ensures
        docs_in(lines) == Ok::<Seq<Json>, Fault>(docs),
    decreases lines.len(),
{
    if lines.len() > 0 {
        lemma_docs_in(lines.drop_first(), docs.drop_first());
        assert(docs =~= seq![docs[0]] + docs.drop_first());
    } else {
        assert(docs =~= seq![]);
    }
}

/// The offsets that are listed, in every field of the filter, under the text of the value that
/// the filter demands.
pub open spec fn indexed_offsets(index: CollView, filter: Map<Seq<char>, Json>) -> Set<u64> {
    Set::new(
        |offset: u64|
            forall|k: Seq<char>| #[trigger]
                filter.contains_key(k) ==> offsets_under(index[k], json_text(filter[k])).contains(
                    offset,
                ),
    )
}

/// The indexes of a collection list what its log holds.
pub open spec fn index_matches(index: CollView, data: Seq<u8>) -> bool {
    forall|field: Seq<char>| #[trigger]
        index.contains_key(field) ==> index[field] == field_index(log_records(data), field)
}

/// No other value has the text of a value that the filter demands.
pub open spec fn told_apart(filter: Map<Seq<char>, Json>) -> bool {
    forall|k: Seq<char>, w: Json|
        filter.contains_key(k) && #[trigger] json_text(w) == #[trigger] json_text(filter[k]) ==> w
            == filter[k]
}

/// No value that the filter demands holds a floating point zero.
pub open spec fn no_zero(filter: Map<Seq<char>, Json>) -> bool {
    forall|k: Seq<char>| #[trigger] filter.contains_key(k) ==> zero_free(filter[k])
}

/// The offsets in the indexes are those of the documents that pass the filter.
proof fn lemma_indexed_offsets(data: Seq<u8>, index: CollView, filter: Map<Seq<char>, Json>)
    requires
        data.len() <= u64::MAX,
        index_matches(index, data),
        filter != Map::<Seq<char>, Json>::empty(),
        forall|k: Seq<char>| #[trigger] filter.contains_key(k) ==> index.contains_key(k),
        no_zero(filter),
        told_apart(filter),
    ensures
        ascending(indexed_offsets(index, filter)) == matching_offsets(
            log_records(data),
            Some(filter),
        ),
{
    let lines = log_records(data);
    let found = matching_offsets(lines, Some(filter));
    let set = indexed_offsets(index, filter);
    lemma_records(data, 0);
    lemma_matching_offsets(lines, Some(filter));
    assert(exists|k: Seq<char>| filter.contains_key(k)) by {
        if forall|k: Seq<char>| !filter.contains_key(k) {
            assert(filter =~= Map::<Seq<char>, Json>::empty());
        }
    }
    let some = choose|k: Seq<char>| filter.contains_key(k);
    assert forall|i: int| 0 <= i < lines.len() implies ((#[trigger] lines[i]).line matches Line::Doc(
        j,
    ) ==> (passes(j, filter) <==> (forall|k: Seq<char>| #[trigger]
        filter.contains_key(k) ==> field_text(Line::Doc(j), k) == Some(json_text(filter[k]))))) by {
        if lines[i].line is Doc {
            let j = lines[i].line->Doc_0;
            if passes(j, filter) {
                assert forall|k: Seq<char>| #[trigger] filter.contains_key(k) implies field_text(
                    Line::Doc(j),
                    k,
                ) == Some(json_text(filter[k])) by {
                    lemma_eq_is_identity(member(j, k).unwrap(), filter[k]);
                }
            }
            if forall|k: Seq<char>| #[trigger]
                filter.contains_key(k) ==> field_text(Line::Doc(j), k) == Some(
                    json_text(filter[k]),
                ) {
                assert(filter.contains_key(some));
                assert(j is Object);
                assert forall|k: Seq<char>| #[trigger] filter.contains_key(k) implies (member(j, k)
                    matches Some(v) && json_eq(v, filter[k])) by {
                    let v = member(j, k).unwrap();
                    assert(json_text(v) == json_text(filter[k]));
                    lemma_eq_is_identity(v, filter[k]);
                }
            }
        }
    }
    assert forall|offset: u64| found.contains(offset) <==> set.contains(offset) by {
        if found.contains(offset) {
            let i = choose|i: int|
                0 <= i < lines.len() && ((#[trigger] lines[i]).line matches Line::Doc(d)
                    && passes_any(d, Some(filter))) && lines[i].offset == offset;
            let j = lines[i].line->Doc_0;
            assert(passes(j, filter));
            assert forall|k: Seq<char>| #[trigger] filter.contains_key(k) implies offsets_under(
                index[k],
                json_text(filter[k]),
            ).contains(offset) by {
                assert(index.contains_key(k));
                lemma_hits(lines, k, json_text(filter[k]), offset);
                assert(field_text(lines[i].line, k) == Some(json_text(filter[k])));
                let h = hits(lines, k, json_text(filter[k]));
                assert(h.contains(offset));
                assert(h.len() > 0);
            }
        }
        if set.contains(offset) {
            assert(filter.contains_key(some));
            assert(index.contains_key(some));
            lemma_hits(lines, some, json_text(filter[some]), offset);
            let i = choose|i: int|
                0 <= i < lines.len() && field_text((#[trigger] lines[i]).line, some) == Some(
                    json_text(filter[some]),
                ) && lines[i].offset as u64 == offset;
            let j = lines[i].line->Doc_0;
            assert forall|k: Seq<char>| #[trigger] filter.contains_key(k) implies field_text(
                Line::Doc(j),
                k,
            ) == Some(json_text(filter[k])) by {
                assert(index.contains_key(k));
                lemma_hits(lines, k, json_text(filter[k]), offset);
                let i2 = choose|i2: int|
                    0 <= i2 < lines.len() && field_text((#[trigger] lines[i2]).line, k) == Some(
                        json_text(filter[k]),
                    ) && lines[i2].offset as u64 == offset;
                assert(i2 == i);
            }
            assert(passes(j, filter));
            assert(lines[i].offset == offset);
        }
    }
    lemma_ascending_unique(found, set);
}

/// A lookup in the indexes finds what a scan finds, in the same order and on the same page, unless
/// the scan comes upon a line that cannot be read.
pub proof fn law_lookup_agrees_with_scan(
    data: Seq<u8>,
    index: CollView,
    filter: Map<Seq<char>, Json>,
    skip: nat,
    count: nat,
)
    requires
        data.len() <= u64::MAX,
        scan_records(log_records(data), Some(filter), skip, Some(count)) is Ok,
        index_matches(index, data),
        filter != Map::<Seq<char>, Json>::empty(),
        forall|k: Seq<char>| #[trigger] filter.contains_key(k) ==> index.contains_key(k),
        no_zero(filter),
        told_apart(filter),
        count > 0,
    ensures
        docs_in(
            page(ascending(indexed_offsets(index, filter)), skip, count).map_values(
                |offset: u64| line_at(data, offset),
            ),
        ) == scan_records(log_records(data), Some(filter), skip, Some(count)),
{
    let lines = log_records(data);
    lemma_indexed_offsets(data, index, filter);
    lemma_records(data, 0);
    lemma_matching_pairs(data, lines, Some(filter));
    law_scan_is_a_page(lines, Some(filter), skip, Some(count));
    let offsets = page(matching_offsets(lines, Some(filter)), skip, count);
    let docs = page(matching(lines, Some(filter)), skip, count);
    let read = offsets.map_values(|offset: u64| line_at(data, offset));
    assert forall|i: int| 0 <= i < read.len() implies #[trigger] read[i] == Line::Doc(docs[i]) by {
        assert(offsets[i] == matching_offsets(lines, Some(filter))[i + skip]);
        assert(docs[i] == matching(lines, Some(filter))[i + skip]);
    }
    lemma_docs_in(read, docs);
}

// ---- finding ----

/// A reading can go by the indexes: the filter demands something, every field that it names is
/// indexed, and no value that it demands holds a floating point zero. Indexes tell the two zeros
/// apart, which are equal.
pub open spec fn uses_index(
    index: Option<CollView>,
    filter: Option<Map<Seq<char>, Json>>,
) -> bool {
    match (index, filter) {
        (Some(i), Some(f)) => {
            &&& f != Map::<Seq<char>, Json>::empty()
            &&& forall|k: Seq<char>| #[trigger] f.contains_key(k) ==> i.contains_key(k)
            &&& no_zero(f)
        },
        _ => false,
    }
}

/// The offsets of the page of documents that the indexes find.
pub open spec fn found_offsets(
    index: CollView,
    filter: Map<Seq<char>, Json>,
    n: nat,
    offset: nat,
) -> Seq<u64> {
    page(ascending(indexed_offsets(index, filter)), offset, n)
}

/// What is found in a collection with the given indexes: by the indexes where they serve, or else
/// by a scan.
pub open spec fn found(
    index: Option<CollView>,
    data: Seq<u8>,
    n: nat,
    offset: nat,
    filter: Option<Map<Seq<char>, Json>>,
) -> Result<Seq<Json>, Fault> {
    if uses_index(index, filter) {
        docs_in(
            found_offsets(index.unwrap(), filter.unwrap(), n, offset).map_values(
                |at: u64| line_at(data, at),
            ),
        )
    } else {
        scan_records(log_records(data), filter, offset, Some(n))
    }
}

/// Whether a filter demands no floating point zero.
pub(crate) fn demands_no_zero(filter: &Filter) -> (res: bool)
    ensures
        res == no_zero(filter@),
{
    let entries = filter.entries();
    let mut i: usize = 0;
    while i < entries.len()
        invariant
            i <= entries@.len(),
            filter@ == entries_map(entries@),
            forall|k: int|
                0 <= k < entries@.len() ==> filter@.contains_key((#[trigger] entries@[k]).0@)
                    && filter@[entries@[k].0@] == json_of(entries@[k].1),
            forall|k: int| 0 <= k < i ==> zero_free(json_of((#[trigger] entries@[k]).1)),
        decreases entries@.len() - i,
    {
        if has_zero(&entries[i].1) {
            assert(filter@.contains_key(entries@[i as int].0@));
            return false;
        }
        i = i + 1;
    }
    proof {
        assert forall|k: Seq<char>| #[trigger] filter@.contains_key(k) implies zero_free(
            filter@[k],
        ) by {
            let c = choose|c: int| 0 <= c < entries@.len() && (#[trigger] entries@[c]).0@ == k;
            assert(entries@[c].0@ == k);
        }
    }
    true
}

/// Whether all fields of a filter are indexed.
pub(crate) fn all_indexed(fields: &CollIndexes, filter: &Filter) -> (res: bool)
    ensures
        res == forall|k: Seq<char>| #[trigger]
            filter@.contains_key(k) ==> fields_of(*fields).contains_key(k),
{
    let entries = filter.entries();
    let mut i: usize = 0;
    while i < entries.len()
        invariant
            i <= entries@.len(),
            filter@ == entries_map(entries@),
            forall|k: int|
                0 <= k < entries@.len() ==> filter@.contains_key((#[trigger] entries@[k]).0@),
            forall|k: int|
                0 <= k < i ==> fields_of(*fields).contains_key((#[trigger] entries@[k]).0@),
        decreases entries@.len() - i,
    {
        if !has_field(fields, entries[i].0.as_str()) {
            assert(filter@.contains_key(entries@[i as int].0@));
            return false;
        }
        i = i + 1;
    }
    proof {
        assert forall|k: Seq<char>| #[trigger] filter@.contains_key(k) implies fields_of(
            *fields,
        ).contains_key(k) by {
            let c = choose|c: int| 0 <= c < entries@.len() && (#[trigger] entries@[c]).0@ == k;
            assert(entries@[c].0@ == k);
        }
    }
    true
}

/// The offsets of the documents that the indexes find, in ascending order.
pub(crate) fn lookup(fields: &CollIndexes, filter: &Filter) -> (res: Result<Vec<u64>, EngineError>)
    requires
        filter@ != Map::<Seq<char>, Json>::empty(),
        forall|k: Seq<char>| #[trigger]
            filter@.contains_key(k) ==> fields_of(*fields).contains_key(k),
    ensures
        res matches Ok(list) && list@ == ascending(indexed_offsets(fields_of(*fields), filter@)),
        told_apart(filter@),
{
    let entries = filter.entries();
    let ghost index = fields_of(*fields);
    let mut lists: Vec<Vec<u64>> = Vec::new();
    let mut i: usize = 0;
    while i < entries.len()
        invariant
            i <= entries@.len(),
            index == fields_of(*fields),
            filter@ == entries_map(entries@),
            forall|k: int|
                0 <= k < entries@.len() ==> filter@.contains_key((#[trigger] entries@[k]).0@)
                    && filter@[entries@[k].0@] == json_of(entries@[k].1),
            forall|k: Seq<char>| #[trigger] filter@.contains_key(k) ==> index.contains_key(k),
            lists@.len() == i,
            forall|k: int|
                0 <= k < i ==> (#[trigger] lists@[k])@ == offsets_under(
                    index[entries@[k].0@],
                    json_text(json_of(entries@[k].1)),
                ),
            forall|k: int, w: Json|
                0 <= k < i && #[trigger] json_text(w) == json_text(
                    json_of((#[trigger] entries@[k]).1),
                ) ==> w == json_of(entries@[k].1),
        decreases entries@.len() - i,
    {
        let field = entries[i].0.as_str();
        assert(index.contains_key(field@));
        let text = match to_string(&entries[i].1) {
            Ok(text) => text,
            Err(e) => {
                return Err(EngineError::Json(e));
            },
        };
        let list = match get_field(fields, field) {
            Some(guard) => match get_offsets(field_behind(&guard), text.as_str()) {
                Some(list) => list,
                None => Vec::new(),
            },
            None => Vec::new(),
        };
        lists.push(list);
        i = i + 1;
    }
    proof {
        assert(exists|k: Seq<char>| filter@.contains_key(k)) by {
            if forall|k: Seq<char>| !filter@.contains_key(k) {
                assert(filter@ =~= Map::<Seq<char>, Json>::empty());
            }
        }
        assert(told_apart(filter@)) by {
            assert forall|k: Seq<char>, w: Json|
                filter@.contains_key(k) && #[trigger] json_text(w) == #[trigger] json_text(
                    filter@[k],
                ) implies w == filter@[k] by {
                let c = choose|c: int| 0 <= c < entries@.len() && (#[trigger] entries@[c]).0@ == k;
                assert(entries@[c].0@ == k);
                assert(filter@[k] == json_of(entries@[c].1));
            }
        }
        let a = in_all(lists@);
        let b = indexed_offsets(index, filter@);
        assert forall|x: u64| a.contains(x) <==> b.contains(x) by {
            if a.contains(x) {
                assert forall|k: Seq<char>| #[trigger] filter@.contains_key(k) implies offsets_under(
                    index[k],
                    json_text(filter@[k]),
                ).contains(x) by {
                    let c = choose|c: int|
                        0 <= c < entries@.len() && (#[trigger] entries@[c]).0@ == k;
                    assert(entries@[c].0@ == k);
                    assert(lists@[c]@.contains(x));
                }
            }
            if b.contains(x) {
                assert forall|c: int| 0 <= c < lists@.len() implies (
                #[trigger] lists@[c])@.contains(x) by {
                    assert(filter@.contains_key(entries@[c].0@));
                }
            }
        }
        assert(a =~= b);
    }
    Ok(intersect(&lists))
}

// ---- the last documents ----

/// The last `n` elements of a list.
pub open spec fn last_n<A>(list: Seq<A>, n: nat) -> Seq<A> {
    if n >= list.len() {
        list
    } else {
        list.skip(list.len() - n)
    }
}

/// The filter, where it demands anything.
pub open spec fn in_force(filter: Option<Map<Seq<char>, Json>>) -> Option<Map<Seq<char>, Json>> {
    match filter {
        Some(f) => if f == Map::<Seq<char>, Json>::empty() {
            None
        } else {
            filter
        },
        None => None,
    }
}

/// What is found at the end of a log: of all documents that pass the filter, the last `n`.
pub open spec fn tailed(
    data: Seq<u8>,
    n: nat,
    filter: Option<Map<Seq<char>, Json>>,
) -> Result<Seq<Json>, Fault> {
    match scan_records(log_records(data), in_force(filter), 0, None) {
        Ok(docs) => Ok(last_n(docs, n)),
        Err(fault) => Err(fault),
    }
}

/// A limit of zero is reached as a limit of one is.
proof fn lemma_zero_limit(lines: Seq<Record>, skip: nat)
    ensures
        scan_records(lines, None, skip, Some(0)) == scan_records(lines, None, skip, Some(1)),
    decreases lines.len(),
{
    if lines.len() > 0 {
        let rest = lines.drop_first();
        lemma_zero_limit(rest, skip);
        if skip > 0 {
            lemma_zero_limit(rest, (skip - 1) as nat);
        }
    }
}

/// A scan that may take as many documents as there are lines comes upon every line.
proof fn lemma_scan_reaches(lines: Seq<Record>, skip: nat, n: nat)
    requires
        n > 0,
        skip + n >= filled(lines),
    ensures
        match scan_records(lines, None, 0, None) {
            Ok(_) => scan_records(lines, None, skip, Some(n)) is Ok && filled(lines) == matching(
                lines,
                None,
            ).len(),
            Err(fault) => scan_records(lines, None, skip, Some(n)) == Err::<Seq<Json>, Fault>(fault),
        },
    decreases lines.len(),
{
    if lines.len() > 0 {
        let rest = lines.drop_first();
        match lines[0].line {
            Line::Doc(j) => {
                if skip > 0 {
                    lemma_scan_reaches(rest, (skip - 1) as nat, n);
                } else if n > 1 {
                    lemma_scan_reaches(rest, 0, (n - 1) as nat);
                } else {
                    lemma_scan_reaches(rest, 0, 1);
                    lemma_blank_lines(rest);
                }
            },
            Line::Blank => {
                lemma_scan_reaches(rest, skip, n);
            },
            _ => {},
        }
    }
}

/// Blank lines can be read.
proof fn lemma_blank_lines(lines: Seq<Record>)
    requires
        filled(lines) == 0,
    ensures
        scan_records(lines, None, 0, None) is Ok,
    decreases lines.len(),
{
    if lines.len() > 0 {
        lemma_blank_lines(lines.drop_first());
    }
}

/// Without a filter the end of a log is found by a scan that skips all but `n` of its lines.
pub(crate) proof fn lemma_tail_by_scan(data: Seq<u8>, n: nat, skip: nat)
    requires
        ({
            let lines = filled(log_records(data));
            skip == if lines >= n {
                (lines - n) as nat
            } else {
                0
            }
        }),
    ensures
        tailed(data, n, None) == scan_records(log_records(data), None, skip, Some(n)),
{
    let lines = log_records(data);
    let all = matching(lines, None);
    let count: nat = if n == 0 {
        1
    } else {
        n
    };
    lemma_zero_limit(lines, skip);
    lemma_scan_reaches(lines, skip, count);
    law_scan_is_a_page(lines, None, 0, None);
    law_scan_is_a_page(lines, None, skip, Some(n));
    if scan_records(lines, None, 0, None) is Ok {
        assert(page(all, 0, all.len()) =~= all);
        assert(page(all, skip, count) =~= last_n(all, n));
    }
}

/// In a readable log as many lines are not blank as there are documents.
pub proof fn law_lines_count_documents(lines: Seq<Record>)
    requires
        readable(lines),
    ensures
        filled(lines) == matching(lines, None).len(),
{
    law_scan_is_a_page(lines, None, 0, None);
    lemma_scan_reaches(lines, filled(lines), 1);
}

/// The end of a readable log is the last of the documents that pass the filter.
pub proof fn law_tail_is_the_last(data: Seq<u8>, n: nat, filter: Option<Map<Seq<char>, Json>>)
    requires
        readable(log_records(data)),
    ensures
        tailed(data, n, filter) == Ok::<Seq<Json>, Fault>(
            last_n(matching(log_records(data), in_force(filter)), n),
        ),
{
    let lines = log_records(data);
    let all = matching(lines, in_force(filter));
    law_scan_is_a_page(lines, in_force(filter), 0, None);
    assert(page(all, 0, all.len()) =~= all);
}

/// The end of a readable log is the last page of what is found in it, by the indexes or by a scan.
pub proof fn law_tail_is_the_last_page(
    index: Option<CollView>,
    data: Seq<u8>,
    n: nat,
    filter: Option<Map<Seq<char>, Json>>,
)
    requires
        data.len() <= u64::MAX,
        readable(log_records(data)),
        1 <= n <= matching(log_records(data), filter).len(),
        index matches Some(i) ==> index_matches(i, data),
        filter matches Some(f) ==> told_apart(f),
        filter == Some(Map::<Seq<char>, Json>::empty()) ==> matching(log_records(data), filter)
            == matching(log_records(data), None),
    ensures
        tailed(data, n, filter) == found(
            index,
            data,
            n,
            (matching(log_records(data), filter).len() - n) as nat,
            filter,
        ),
{
    let lines = log_records(data);
    let all = matching(lines, filter);
    let skip = (all.len() - n) as nat;
    law_tail_is_the_last(data, n, filter);
    assert(matching(lines, in_force(filter)) == all);
    law_scan_is_a_page(lines, filter, skip, Some(n));
    assert(page(all, skip, n) =~= last_n(all, n));
    if uses_index(index, filter) {
        law_lookup_agrees_with_scan(data, index.unwrap(), filter.unwrap(), skip, n);
    }
}

/// A scan that needs no more documents than one that reaches its end reaches its end too.
proof fn lemma_shorter_scan(
    lines: Seq<Record>,
    filter: Option<Map<Seq<char>, Json>>,
    skip: nat,
    n: nat,
    less_skip: nat,
    less_n: nat,
)
    requires
        n > 0,
        less_n > 0,
        less_skip + less_n <= skip + n,
        scan_records(lines, filter, skip, Some(n)) is Ok,
    ensures
        scan_records(lines, filter, less_skip, Some(less_n)) is Ok,
    decreases lines.len(),
{
    if lines.len() > 0 {
        let rest = lines.drop_first();
        match lines[0].line {
            Line::Doc(j) => {
                if !passes_any(j, filter) {
                    lemma_shorter_scan(rest, filter, skip, n, less_skip, less_n);
                } else if less_skip > 0 {
                    if skip > 0 {
                        lemma_shorter_scan(
                            rest,
                            filter,
                            (skip - 1) as nat,
                            n,
                            (less_skip - 1) as nat,
                            less_n,
                        );
                    } else {
                        lemma_shorter_scan(
                            rest,
                            filter,
                            0,
                            (n - 1) as nat,
                            (less_skip - 1) as nat,
                            less_n,
                        );
                    }
                } else if less_n > 1 {
                    if skip > 0 {
                        lemma_shorter_scan(
                            rest,
                            filter,
                            (skip - 1) as nat,
                            n,
                            0,
                            (less_n - 1) as nat,
                        );
                    } else {
                        lemma_shorter_scan(
                            rest,
                            filter,
                            0,
                            (n - 1) as nat,
                            0,
                            (less_n - 1) as nat,
                        );
                    }
                }
            },
            _ => {
                lemma_shorter_scan(rest, filter, skip, n, less_skip, less_n);
            },
        }
    }
}

/// A page of a scan is followed by the next one: together they are the longer page.
pub proof fn law_pages_follow(
    lines: Seq<Record>,
    filter: Option<Map<Seq<char>, Json>>,
    skip: nat,
    first: nat,
    second: nat,
)
    requires
        first > 0,
        second > 0,
        scan_records(lines, filter, skip, Some(first + second)) is Ok,
    ensures
        scan_records(lines, filter, skip, Some(first)) is Ok,
        scan_records(lines, filter, skip + first, Some(second)) is Ok,
        scan_records(lines, filter, skip, Some(first + second))->Ok_0 == scan_records(
            lines,
            filter,
            skip,
            Some(first),
        )->Ok_0 + scan_records(lines, filter, skip + first, Some(second))->Ok_0,
{
    let all = matching(lines, filter);
    lemma_shorter_scan(lines, filter, skip, first + second, skip, first);
    lemma_shorter_scan(lines, filter, skip, first + second, skip + first, second);
    law_scan_is_a_page(lines, filter, skip, Some(first));
    law_scan_is_a_page(lines, filter, skip + first, Some(second));
    law_scan_is_a_page(lines, filter, skip, Some(first + second));
    assert(page(all, skip, first) + page(all, skip + first, second) =~= page(
        all,
        skip,
        first + second,
    ));
}

} // verus!

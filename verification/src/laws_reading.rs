//! Laws of readings: what a scan, a lookup and a tail give, in terms of the lines of the log.

use crate::error::EngineError;
use crate::filter::passes_any;
use crate::guarantees::lemma_matching_push;
use crate::index::{offsets_under, CollView};
use crate::json::{json_of, json_text, jsons, zero_free, Json};
use crate::log::{
    docs_in, field_index, gives, line_at, log_records, scan_records, Fault, Line, Record,
};
use crate::offsets::{lemma_ascending_unique, page};
use crate::reading::{
    found, found_offsets, in_force, index_matches, indexed_offsets, last_n,
    law_lookup_agrees_with_scan, law_scan_is_a_page, lemma_records, matching, no_zero, tailed,
    told_apart, uses_index,
};
use serde_json::Value;
use vstd::prelude::*;

verus! {

// ---- results ----

/// A reading that finds documents gives back as many values, and each holds all that its document
/// holds, in the same order; and whatever holds just that is what the reading gives.
pub proof fn law_a_reading_gives_its_documents(
    res: Result<Vec<Value>, EngineError>,
    docs: Seq<Json>,
)
    ensures
        gives(res, Ok(docs)) <==> (res matches Ok(values) && values@.len() == docs.len()
            && forall|i: int|
            0 <= i < docs.len() ==> json_of(#[trigger] values@[i]) == docs[i]),
{
    if let Ok(values) = res {
        if gives(res, Ok(docs)) {
            assert forall|i: int| 0 <= i < docs.len() implies json_of(#[trigger] values@[i])
                == docs[i] by {
                assert(jsons(values@)[i] == json_of(values@[i]));
            }
        }
        if values@.len() == docs.len() && forall|i: int|
            0 <= i < docs.len() ==> json_of(#[trigger] values@[i]) == docs[i] {
            assert(jsons(values@) =~= docs);
        }
    }
}

/// A reading that comes upon bytes that are not text gives an I/O error, and one that comes upon
/// text that is not JSON gives a JSON error.
pub proof fn law_a_reading_gives_its_fault(res: Result<Vec<Value>, EngineError>)
    ensures
        gives(res, Err(Fault::Text)) <==> (res matches Err(e) && e is Io),
        gives(res, Err(Fault::Json)) <==> (res matches Err(e) && e is Json),
{
}

// ---- the documents of lines ----

/// The documents in lines that pass a filter are taken line by line; a line that holds no
/// document, or one that does not pass, adds nothing.
pub proof fn law_documents_that_pass(
    lines: Seq<Record>,
    offset: int,
    line: Line,
    filter: Option<Map<Seq<char>, Json>>,
)
    ensures
        matching(Seq::empty(), filter).len() == 0,
        ({
            let before = matching(lines, filter);
            let after = matching(lines.push(Record { offset, line }), filter);
            match line {
                Line::Doc(j) => if passes_any(j, filter) {
                    after == before.push(j)
                } else {
                    after == before
                },
                _ => after == before,
            }
        }),
{
    lemma_matching_push(lines, Record { offset, line }, filter);
}

proof fn lemma_docs_in_concat(a: Seq<Line>, b: Seq<Line>)
    requires
        docs_in(a) is Ok,
    ensures
        docs_in(a + b) == match docs_in(b) {
            Ok(docs) => Ok::<Seq<Json>, Fault>(docs_in(a)->Ok_0 + docs),
            Err(fault) => Err(fault),
        },
    decreases a.len(),
{
    if a.len() == 0 {
        assert(a + b =~= b);
        if let Ok(docs) = docs_in(b) {
            assert(Seq::<Json>::empty() + docs =~= docs);
        }
    } else {
        let rest = a.drop_first();
        assert((a + b).drop_first() =~= rest + b);
        match a[0] {
            Line::Blank => {
                lemma_docs_in_concat(rest, b);
            },
            Line::Doc(j) => {
                lemma_docs_in_concat(rest, b);
                if let Ok(docs) = docs_in(b) {
                    let inner = docs_in(rest)->Ok_0;
                    assert(seq![j] + (inner + docs) =~= (seq![j] + inner) + docs);
                }
            },
            _ => {},
        }
    }
}

/// Lines are read one after the other: a document is added to those before it, a blank line adds
/// nothing, and the first line that cannot be read is the fault of the whole.
pub proof fn law_lines_are_read_in_order(lines: Seq<Line>, j: Json, more: Seq<Line>)
    requires
        docs_in(lines) is Ok,
    ensures
        docs_in(Seq::empty()) == Ok::<Seq<Json>, Fault>(Seq::empty()),
        docs_in(lines.push(Line::Doc(j))) == Ok::<Seq<Json>, Fault>(docs_in(lines)->Ok_0.push(j)),
        docs_in(lines.push(Line::Blank)) == docs_in(lines),
        docs_in(lines.push(Line::NotText) + more) == Err::<Seq<Json>, Fault>(Fault::Text),
        docs_in(lines.push(Line::NotJson) + more) == Err::<Seq<Json>, Fault>(Fault::Json),
{
    let docs = docs_in(lines)->Ok_0;
    let none = Seq::<Line>::empty();
    assert(docs_in(none) == Ok::<Seq<Json>, Fault>(Seq::empty()));
    let one = seq![Line::Doc(j)];
    assert(one.drop_first() =~= none);
    assert(seq![j] + Seq::<Json>::empty() =~= seq![j]);
    lemma_docs_in_concat(lines, one);
    assert(lines + one =~= lines.push(Line::Doc(j)));
    assert(docs + seq![j] =~= docs.push(j));
    let blank = seq![Line::Blank];
    assert(blank.drop_first() =~= none);
    lemma_docs_in_concat(lines, blank);
    assert(lines + blank =~= lines.push(Line::Blank));
    assert(docs + Seq::<Json>::empty() =~= docs);
    let text = seq![Line::NotText] + more;
    lemma_docs_in_concat(lines, text);
    assert(lines + text =~= lines.push(Line::NotText) + more);
    let json = seq![Line::NotJson] + more;
    lemma_docs_in_concat(lines, json);
    assert(lines + json =~= lines.push(Line::NotJson) + more);
}

// ---- scans ----

/// A scan stops once it has as many documents as it may take, whatever stands in the lines behind
/// them: without the first `skip` that pass, it gives the next `n`.
pub proof fn law_a_scan_stops_when_it_has_enough(
    good: Seq<Record>,
    rest: Seq<Record>,
    filter: Option<Map<Seq<char>, Json>>,
    skip: nat,
    n: nat,
)
    requires
        forall|i: int|
            0 <= i < good.len() ==> (#[trigger] good[i]).line is Blank || good[i].line is Doc,
        n > 0,
        matching(good, filter).len() >= skip + n,
    ensures
        scan_records(good + rest, filter, skip, Some(n)) == Ok::<Seq<Json>, Fault>(
            matching(good, filter).subrange(skip as int, (skip + n) as int),
        ),
    decreases good.len(),
{
    let all = matching(good, filter);
    let lines = good + rest;
    let less = good.drop_first();
    let others = matching(less, filter);
    assert(lines.drop_first() =~= less + rest);
    assert(lines[0] == good[0]);
    assert forall|i: int| 0 <= i < less.len() implies (#[trigger] less[i]).line is Blank
        || less[i].line is Doc by {
        assert(less[i] == good[i + 1]);
    }
    match good[0].line {
        Line::Doc(j) => {
            if !passes_any(j, filter) {
                law_a_scan_stops_when_it_has_enough(less, rest, filter, skip, n);
            } else if skip > 0 {
                law_a_scan_stops_when_it_has_enough(less, rest, filter, (skip - 1) as nat, n);
                assert(all.subrange(skip as int, (skip + n) as int) =~= others.subrange(
                    skip - 1,
                    skip - 1 + n,
                ));
            } else if n == 1 {
                assert(all.subrange(0, 1) =~= seq![j]);
            } else {
                law_a_scan_stops_when_it_has_enough(less, rest, filter, 0, (n - 1) as nat);
                assert(all.subrange(0, n as int) =~= seq![j] + others.subrange(0, n - 1));
            }
        },
        _ => {
            law_a_scan_stops_when_it_has_enough(less, rest, filter, skip, n);
        },
    }
}

/// A scan that has not enough reads on: at the end of the log it gives all that passed but for the
/// first `skip`, and a line that cannot be read is its fault.
pub proof fn law_a_scan_reads_on(
    good: Seq<Record>,
    rest: Seq<Record>,
    filter: Option<Map<Seq<char>, Json>>,
    skip: nat,
    limit: Option<nat>,
)
    requires
        forall|i: int|
            0 <= i < good.len() ==> (#[trigger] good[i]).line is Blank || good[i].line is Doc,
        limit matches Some(n) ==> n > 0 && matching(good, filter).len() < skip + n,
    ensures
        ({
            let all = matching(good, filter);
            let res = scan_records(good + rest, filter, skip, limit);
            &&& rest.len() == 0 && skip <= all.len() ==> res == Ok::<Seq<Json>, Fault>(
                all.skip(skip as int),
            )
            &&& rest.len() == 0 && skip > all.len() ==> res == Ok::<Seq<Json>, Fault>(Seq::empty())
            &&& rest.len() > 0 && rest[0].line is NotText ==> res == Err::<Seq<Json>, Fault>(
                Fault::Text,
            )
            &&& rest.len() > 0 && rest[0].line is NotJson ==> res == Err::<Seq<Json>, Fault>(
                Fault::Json,
            )
        }),
    decreases good.len(),
{
    let all = matching(good, filter);
    let lines = good + rest;
    if good.len() == 0 {
        assert(lines =~= rest);
        assert(all.skip(0) =~= Seq::empty());
    } else {
        let less = good.drop_first();
        let others = matching(less, filter);
        assert(lines.drop_first() =~= less + rest);
        assert(lines[0] == good[0]);
        assert forall|i: int| 0 <= i < less.len() implies (#[trigger] less[i]).line is Blank
            || less[i].line is Doc by {
            assert(less[i] == good[i + 1]);
        }
        match good[0].line {
            Line::Doc(j) => {
                if !passes_any(j, filter) {
                    law_a_scan_reads_on(less, rest, filter, skip, limit);
                } else if skip > 0 {
                    law_a_scan_reads_on(less, rest, filter, (skip - 1) as nat, limit);
                    if skip <= all.len() {
                        assert(all.skip(skip as int) =~= others.skip(skip - 1));
                    }
                } else {
                    let fewer = match limit {
                        Some(n) => Some((n - 1) as nat),
                        None => None,
                    };
                    law_a_scan_reads_on(less, rest, filter, 0, fewer);
                    assert(all.skip(0) =~= seq![j] + others.skip(0));
                }
            },
            _ => {
                law_a_scan_reads_on(less, rest, filter, skip, limit);
            },
        }
    }
}

/// A scan that may take no document takes one, as if it might take one.
pub proof fn law_a_scan_takes_at_least_one(
    lines: Seq<Record>,
    filter: Option<Map<Seq<char>, Json>>,
    skip: nat,
)
    ensures
        scan_records(lines, filter, skip, Some(0)) == scan_records(lines, filter, skip, Some(1)),
    decreases lines.len(),
{
    if lines.len() > 0 {
        law_a_scan_takes_at_least_one(lines.drop_first(), filter, skip);
        if skip > 0 {
            law_a_scan_takes_at_least_one(lines.drop_first(), filter, (skip - 1) as nat);
        }
    }
}

// ---- pages ----

/// A page of a list starts behind the elements that are skipped and holds as many as are asked
/// for, or all that are left where there are fewer.
pub proof fn law_a_page<A>(list: Seq<A>, skip: nat, count: nat, i: int)
    ensures
        skip >= list.len() ==> page(list, skip, count).len() == 0,
        skip + count <= list.len() ==> page(list, skip, count).len() == count,
        skip < list.len() < skip + count ==> page(list, skip, count).len() == list.len() - skip,
        0 <= i < page(list, skip, count).len() ==> page(list, skip, count)[i] == list[skip + i],
{
}

/// The last elements of a list: as many as are asked for, or all, in their order.
pub proof fn law_the_last_of_a_list<A>(list: Seq<A>, n: nat, i: int)
    ensures
        n >= list.len() ==> last_n(list, n) == list,
        n < list.len() ==> last_n(list, n).len() == n,
        n < list.len() && 0 <= i < n ==> last_n(list, n)[i] == list[list.len() - n + i],
{
}

// ---- tails ----

/// The tail of a log that can be read is what the last of the documents are that pass: as many as
/// are asked for, or all where there are fewer. A filter that demands nothing is no filter.
pub proof fn law_a_tail_ends_the_log(
    data: Seq<u8>,
    n: nat,
    filter: Option<Map<Seq<char>, Json>>,
    i: int,
)
    requires
        forall|k: int|
            0 <= k < log_records(data).len() ==> (#[trigger] log_records(data)[k]).line is Blank
                || log_records(data)[k].line is Doc,
        filter != Some(Map::<Seq<char>, Json>::empty()),
    ensures
        tailed(data, n, Some(Map::empty())) == tailed(data, n, None),
        tailed(data, n, filter) is Ok,
        ({
            let all = matching(log_records(data), filter);
            let docs = tailed(data, n, filter)->Ok_0;
            &&& n >= all.len() ==> docs.len() == all.len()
            &&& n < all.len() ==> docs.len() == n
            &&& 0 <= i < docs.len() ==> docs[i] == all[all.len() - docs.len() + i]
        }),
{
    let lines = log_records(data);
    let all = matching(lines, filter);
    assert(lines + Seq::<Record>::empty() =~= lines);
    law_a_scan_reads_on(lines, Seq::empty(), filter, 0, None);
    assert(all.skip(0) =~= all);
}

/// The tail of a log is at fault over the first line that cannot be read, wherever it stands.
pub proof fn law_a_tail_reads_every_line(
    data: Seq<u8>,
    n: nat,
    filter: Option<Map<Seq<char>, Json>>,
    good: Seq<Record>,
    rest: Seq<Record>,
)
    requires
        log_records(data) == good + rest,
        forall|i: int|
            0 <= i < good.len() ==> (#[trigger] good[i]).line is Blank || good[i].line is Doc,
        rest.len() > 0,
    ensures
        rest[0].line is NotText ==> tailed(data, n, filter) == Err::<Seq<Json>, Fault>(Fault::Text),
        rest[0].line is NotJson ==> tailed(data, n, filter) == Err::<Seq<Json>, Fault>(Fault::Json),
{
    law_a_scan_reads_on(good, rest, in_force(filter), 0, None);
}

// ---- finding ----

/// Without indexes, without a demand, and where the filter names a field that is not indexed or a
/// value with a floating point zero, what is found is what a scan finds.
pub proof fn law_finding_without_indexes_scans(
    index: CollView,
    data: Seq<u8>,
    n: nat,
    offset: nat,
    filter: Map<Seq<char>, Json>,
    name: Seq<char>,
)
    ensures
        found(None, data, n, offset, None) == scan_records(
            log_records(data),
            None,
            offset,
            Some(n),
        ),
        found(None, data, n, offset, Some(filter)) == scan_records(
            log_records(data),
            Some(filter),
            offset,
            Some(n),
        ),
        found(Some(index), data, n, offset, None) == scan_records(
            log_records(data),
            None,
            offset,
            Some(n),
        ),
        found(Some(index), data, n, offset, Some(Map::empty())) == scan_records(
            log_records(data),
            Some(Map::empty()),
            offset,
            Some(n),
        ),
        filter.contains_key(name) && (!index.contains_key(name) || !zero_free(filter[name]))
            ==> found(Some(index), data, n, offset, Some(filter)) == scan_records(
            log_records(data),
            Some(filter),
            offset,
            Some(n),
        ),
{
}

/// The indexes serve a filter exactly where it demands something, all fields that it names are
/// indexed, and no value that it demands holds a floating point zero.
pub proof fn law_when_indexes_serve(
    index: Option<CollView>,
    filter: Option<Map<Seq<char>, Json>>,
)
    ensures
        uses_index(index, filter) <==> (index matches Some(i) && (filter matches Some(f) && {
            &&& exists|k: Seq<char>| #[trigger] f.contains_key(k)
            &&& forall|k: Seq<char>| #[trigger]
                f.contains_key(k) ==> i.contains_key(k) && zero_free(f[k])
        })),
{
    if let Some(f) = filter {
        if forall|k: Seq<char>| !#[trigger] f.contains_key(k) {
            assert(f =~= Map::<Seq<char>, Json>::empty());
        }
    }
}

/// The offsets that the indexes find are the page of those that they list under all of the values
/// that the filter demands, in ascending order.
pub proof fn law_the_offsets_that_indexes_find(
    index: CollView,
    filter: Map<Seq<char>, Json>,
    n: nat,
    offset: nat,
    list: Seq<u64>,
)
    requires
        forall|i: int, j: int| 0 <= i < j < list.len() ==> list[i] < list[j],
        forall|at: u64| #[trigger]
            list.contains(at) <==> forall|k: Seq<char>| #[trigger]
                filter.contains_key(k) ==> index[k].contains_key(json_text(filter[k]))
                    && index[k][json_text(filter[k])].contains(at),
    ensures
        found_offsets(index, filter, n, offset) == page(list, offset, n),
{
    let set = indexed_offsets(index, filter);
    assert forall|at: u64| list.contains(at) <==> set.contains(at) by {
        if set.contains(at) {
            assert forall|k: Seq<char>| #[trigger] filter.contains_key(k) implies index[
                k
            ].contains_key(json_text(filter[k])) && index[k][json_text(filter[k])].contains(at) by {
                assert(offsets_under(index[k], json_text(filter[k])).contains(at));
            }
            assert(list.contains(at));
        }
    }
    lemma_ascending_unique(list, set);
}

/// Indexes match a log where each of them is the index of its field over the lines of the log.
pub proof fn law_when_indexes_match_a_log(index: CollView, data: Seq<u8>)
    ensures
        index_matches(index, data) <==> forall|field: Seq<char>| #[trigger]
            index.contains_key(field) ==> index[field] == field_index(log_records(data), field),
{
}

/// The values of a filter are told apart where each is the only one with its text, and hold no
/// floating point zero where none of them does.
pub proof fn law_when_values_are_told_apart(filter: Map<Seq<char>, Json>)
    ensures
        told_apart(filter) <==> forall|k: Seq<char>, w: Json|
            filter.contains_key(k) && #[trigger] json_text(w) == #[trigger] json_text(filter[k])
                ==> w == filter[k],
        no_zero(filter) <==> forall|k: Seq<char>| #[trigger]
            filter.contains_key(k) ==> zero_free(filter[k]),
{
}

/// Where every demand is on an indexed field, what is found are the documents in the lines that
/// the indexes list under all of the values: the page of them in the order of the log.
pub proof fn law_finding_by_indexes_reads_the_listed_lines(
    index: CollView,
    data: Seq<u8>,
    n: nat,
    offset: nat,
    filter: Map<Seq<char>, Json>,
    name: Seq<char>,
    list: Seq<u64>,
)
    requires
        filter.contains_key(name),
        forall|k: Seq<char>| #[trigger]
            filter.contains_key(k) ==> index.contains_key(k) && zero_free(filter[k]),
        forall|i: int, j: int| 0 <= i < j < list.len() ==> list[i] < list[j],
        forall|at: u64| #[trigger]
            list.contains(at) <==> forall|k: Seq<char>| #[trigger]
                filter.contains_key(k) ==> index[k].contains_key(json_text(filter[k]))
                    && index[k][json_text(filter[k])].contains(at),
    ensures
        found(Some(index), data, n, offset, Some(filter)) == docs_in(
            page(list, offset, n).map_values(|at: u64| line_at(data, at)),
        ),
{
    law_the_offsets_that_indexes_find(index, filter, n, offset, list);
    assert(filter != Map::<Seq<char>, Json>::empty());
}

/// Indexes that list what the log holds change nothing in what is found: it is what a scan finds,
/// where the scan can read what it comes upon and no two values that are told apart have one text.
pub proof fn law_indexes_change_nothing(
    index: CollView,
    data: Seq<u8>,
    n: nat,
    offset: nat,
    filter: Option<Map<Seq<char>, Json>>,
)
    requires
        data.len() <= u64::MAX,
        n > 0,
        scan_records(log_records(data), filter, offset, Some(n)) is Ok,
        forall|field: Seq<char>| #[trigger]
            index.contains_key(field) ==> index[field] == field_index(log_records(data), field),
        filter matches Some(f) ==> forall|k: Seq<char>, w: Json|
            f.contains_key(k) && #[trigger] json_text(w) == #[trigger] json_text(f[k]) ==> w
                == f[k],
    ensures
        found(Some(index), data, n, offset, filter) == found(None, data, n, offset, filter),
{
    if uses_index(Some(index), filter) {
        law_lookup_agrees_with_scan(data, index, filter.unwrap(), offset, n);
    }
}

// ---- what is found is stored ----

/// Each document that passes a filter stands in one of the lines, and passes.
proof fn lemma_matching_is_stored(
    lines: Seq<Record>,
    filter: Option<Map<Seq<char>, Json>>,
    i: int,
) -> (k: int)
    requires
        0 <= i < matching(lines, filter).len(),
    ensures
        0 <= k < lines.len(),
        lines[k].line == Line::Doc(matching(lines, filter)[i]),
        passes_any(matching(lines, filter)[i], filter),
    decreases lines.len(),
{
    let rest = lines.drop_first();
    let here = lines[0].line matches Line::Doc(j) && passes_any(j, filter);
    if here && i == 0 {
        0
    } else {
        let at = if here {
            i - 1
        } else {
            i
        };
        let k = lemma_matching_is_stored(rest, filter, at);
        assert(lines[k + 1] == rest[k]);
        k + 1
    }
}

/// Each document that is read in lines stands in one of them.
proof fn lemma_read_is_stored(lines: Seq<Line>, i: int) -> (k: int)
    requires
        docs_in(lines) is Ok,
        0 <= i < docs_in(lines)->Ok_0.len(),
    ensures
        0 <= k < lines.len(),
        lines[k] == Line::Doc(docs_in(lines)->Ok_0[i]),
    decreases lines.len(),
{
    let rest = lines.drop_first();
    if lines[0] is Doc && i == 0 {
        0
    } else {
        let at = if lines[0] is Doc {
            i - 1
        } else {
            i
        };
        let k = lemma_read_is_stored(rest, at);
        assert(lines[k + 1] == rest[k]);
        k + 1
    }
}

/// Every value that a scan gives back holds all that some line of the log holds, and passes the
/// filter.
pub proof fn law_a_scan_gives_stored_documents(
    values: Vec<Value>,
    lines: Seq<Record>,
    filter: Option<Map<Seq<char>, Json>>,
    skip: nat,
    limit: Option<nat>,
    i: int,
)
    requires
        gives(Ok(values), scan_records(lines, filter, skip, limit)),
        0 <= i < values@.len(),
    ensures
        exists|k: int|
            0 <= k < lines.len() && (#[trigger] lines[k]).line == Line::Doc(json_of(values@[i])),
        passes_any(json_of(values@[i]), filter),
{
    let docs = scan_records(lines, filter, skip, limit)->Ok_0;
    law_scan_is_a_page(lines, filter, skip, limit);
    law_a_reading_gives_its_documents(Ok(values), docs);
    assert(docs[i] == matching(lines, filter)[skip + i]);
    let k = lemma_matching_is_stored(lines, filter, skip + i);
    assert(lines[k].line == Line::Doc(json_of(values@[i])));
}

/// Every value that a tail gives back holds all that some line of the log holds, and passes the
/// filter, unless that demands nothing.
pub proof fn law_a_tail_gives_stored_documents(
    values: Vec<Value>,
    data: Seq<u8>,
    n: nat,
    filter: Option<Map<Seq<char>, Json>>,
    i: int,
)
    requires
        gives(Ok(values), tailed(data, n, filter)),
        0 <= i < values@.len(),
    ensures
        exists|k: int|
            0 <= k < log_records(data).len() && (#[trigger] log_records(data)[k]).line == Line::Doc(
                json_of(values@[i]),
            ),
        filter != Some(Map::<Seq<char>, Json>::empty()) ==> passes_any(
            json_of(values@[i]),
            filter,
        ),
{
    let lines = log_records(data);
    let force = in_force(filter);
    let all = matching(lines, force);
    let docs = tailed(data, n, filter)->Ok_0;
    law_scan_is_a_page(lines, force, 0, None);
    law_a_reading_gives_its_documents(Ok(values), docs);
    assert(page(all, 0, all.len()) =~= all);
    let at = all.len() - docs.len() + i;
    assert(docs[i] == all[at]);
    let k = lemma_matching_is_stored(lines, force, at);
    assert(lines[k].line == Line::Doc(json_of(values@[i])));
}

/// Every value that is found, by the indexes or by a scan, holds all that the line holds that is
/// read at some offset of the log.
pub proof fn law_what_is_found_is_stored(
    values: Vec<Value>,
    index: Option<CollView>,
    data: Seq<u8>,
    n: nat,
    offset: nat,
    filter: Option<Map<Seq<char>, Json>>,
    i: int,
)
    requires
        data.len() <= u64::MAX,
        gives(Ok(values), found(index, data, n, offset, filter)),
        0 <= i < values@.len(),
    ensures
        exists|at: u64| #[trigger] line_at(data, at) == Line::Doc(json_of(values@[i])),
{
    let docs = found(index, data, n, offset, filter)->Ok_0;
    law_a_reading_gives_its_documents(Ok(values), docs);
    if uses_index(index, filter) {
        let list = found_offsets(index.unwrap(), filter.unwrap(), n, offset);
        let read = list.map_values(|at: u64| line_at(data, at));
        let k = lemma_read_is_stored(read, i);
        assert(line_at(data, list[k]) == Line::Doc(json_of(values@[i])));
    } else {
        let lines = log_records(data);
        law_a_scan_gives_stored_documents(values, lines, filter, offset, Some(n), i);
        let k = choose|k: int|
            0 <= k < lines.len() && (#[trigger] lines[k]).line == Line::Doc(json_of(values@[i]));
        lemma_records(data, 0);
        assert(line_at(data, lines[k].offset as u64) == lines[k].line);
    }
}

} // verus!

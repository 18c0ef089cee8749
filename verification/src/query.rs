//! What clients ask for: pages, filters and batches, and what is wrong with them.

use crate::filter::{distinct_names, entries_map, Filter};
use crate::json::{
    as_u64, from_str, into_array, into_object, is_object, json_of, json_parse, jsons, map_entries,
    map_remove, member, members_of, Json,
};
use serde_json::Value;
use vstd::prelude::*;

verus! {

/// The most documents that one reading returns.
pub const MAX_COUNT: usize = 100_000;

/// The most documents that one batch holds.
pub const MAX_DOCUMENTS: usize = 10_000;

/// What is wrong with a request.
pub enum Refusal {
    /// The filter is not JSON.
    FilterNotJson,
    /// The filter is not an object.
    FilterNotObject,
    /// The body is not an object.
    BodyNotObject,
    /// The member `n` of the body is no count.
    BadCount,
    /// The member `offset` of the body is no count.
    BadOffset,
    /// Fewer than one document, or too many, are asked for.
    CountOutOfRange,
    /// The body is not an array.
    BodyNotArray,
    /// The batch holds too many documents.
    TooManyDocuments,
}

/// What is asked for: how many documents, after how many, and which.
#[verifier::ext_equal]
pub struct Asked {
    pub n: usize,
    pub offset: usize,
    pub filter: Option<Map<Seq<char>, Json>>,
}

/// A reading that a client asks for.
pub struct PostQuery {
    pub filter: Option<Filter>,
    pub n: usize,
    pub offset: usize,
}

impl View for PostQuery {
    type V = Asked;

    open spec fn view(&self) -> Asked {
        Asked { n: self.n, offset: self.offset, filter: filter_of(self.filter) }
    }
}

/// What an optional filter demands.
pub open spec fn filter_of(filter: Option<Filter>) -> Option<Map<Seq<char>, Json>> {
    match filter {
        Some(f) => Some(f@),
        None => None,
    }
}

/// The filter that demands the members; there is none where there are no members.
pub open spec fn demanding(members: Map<Seq<char>, Json>) -> Option<Map<Seq<char>, Json>> {
    if members == Map::<Seq<char>, Json>::empty() {
        None
    } else {
        Some(members)
    }
}

/// The filter that a value stands for.
pub open spec fn filter_from(value: Json) -> Result<Option<Map<Seq<char>, Json>>, Refusal> {
    match value {
        Json::Object(members) => Ok(demanding(members)),
        _ => Err(Refusal::FilterNotObject),
    }
}

/// The filter that a `where` parameter holds.
pub open spec fn filter_in(raw: Option<Seq<char>>) -> Result<
    Option<Map<Seq<char>, Json>>,
    Refusal,
> {
    match raw {
        None => Ok(None),
        Some(text) => match json_parse(text) {
            None => Err(Refusal::FilterNotJson),
            Some(value) => filter_from(value),
        },
    }
}

/// The count in a member of a body: `default` where the member is missing, and none where it is no
/// count.
pub open spec fn count_in(body: Json, name: Seq<char>, default: usize) -> Option<usize> {
    match member(body, name) {
        None => Some(default),
        Some(Json::PosInt(v)) => Some(v as usize),
        Some(_) => None,
    }
}

/// What a body asks for: `n` and `offset` say how many documents and after how many; all other
/// members are demanded of the documents.
pub open spec fn asked_in(body: Json) -> Result<Asked, Refusal> {
    match body {
        Json::Object(members) => match count_in(body, "n"@, 20) {
            None => Err(Refusal::BadCount),
            Some(n) => match count_in(body, "offset"@, 0) {
                None => Err(Refusal::BadOffset),
                Some(offset) => Ok(
                    Asked { n, offset, filter: demanding(members.remove("n"@).remove("offset"@)) },
                ),
            },
        },
        _ => Err(Refusal::BodyNotObject),
    }
}

/// As many documents may be asked for.
pub open spec fn in_range(n: usize) -> bool {
    1 <= n <= MAX_COUNT
}

/// What parameters ask for. The count is looked at first.
pub open spec fn asked_by(n: usize, offset: usize, raw: Option<Seq<char>>) -> Result<
    Asked,
    Refusal,
> {
    if !in_range(n) {
        Err(Refusal::CountOutOfRange)
    } else {
        match filter_in(raw) {
            Err(refusal) => Err(refusal),
            Ok(filter) => Ok(Asked { n, offset, filter }),
        }
    }
}

/// What a body asks for, where the count is in range. The body is looked at first.
pub open spec fn posted(body: Json) -> Result<Asked, Refusal> {
    match asked_in(body) {
        Err(refusal) => Err(refusal),
        Ok(asked) => if in_range(asked.n) {
            Ok(asked)
        } else {
            Err(Refusal::CountOutOfRange)
        },
    }
}

/// What is asked for, in a result.
pub open spec fn asked_of(res: Result<PostQuery, Refusal>) -> Result<Asked, Refusal> {
    match res {
        Ok(query) => Ok(query@),
        Err(refusal) => Err(refusal),
    }
}

impl Refusal {
    /// The HTTP status of the refusal, and what the client is told.
    pub fn response(&self) -> (res: (u16, String))
        ensures
            match *self {
                Refusal::FilterNotJson => res.0 == 400 && res.1@
                    == "invalid JSON in 'where' parameter"@,
                Refusal::FilterNotObject => res.0 == 400 && res.1@
                    == "'where' must be a JSON object"@,
                Refusal::BodyNotObject => res.0 == 400 && res.1@ == "body must be a JSON object"@,
                Refusal::BadCount => res.0 == 400 && res.1@ == "n must be a positive integer"@,
                Refusal::BadOffset => res.0 == 400 && res.1@
                    == "offset must be a non-negative integer"@,
                Refusal::CountOutOfRange => res.0 == 200 && res.1@ == "n must be 1–100000"@,
                Refusal::BodyNotArray => res.0 == 400 && res.1@ == "body must be a JSON array"@,
                Refusal::TooManyDocuments => res.0 == 400 && res.1@
                    == "batch exceeds 10000 document limit"@,
            },
    {
        match self {
            Refusal::FilterNotJson => (400, "invalid JSON in 'where' parameter".to_owned()),
            Refusal::FilterNotObject => (400, "'where' must be a JSON object".to_owned()),
            Refusal::BodyNotObject => (400, "body must be a JSON object".to_owned()),
            Refusal::BadCount => (400, "n must be a positive integer".to_owned()),
            Refusal::BadOffset => (400, "offset must be a non-negative integer".to_owned()),
            Refusal::CountOutOfRange => (200, "n must be 1–100000".to_owned()),
            Refusal::BodyNotArray => (400, "body must be a JSON array".to_owned()),
            Refusal::TooManyDocuments => (400, "batch exceeds 10000 document limit".to_owned()),
        }
    }
}

/// How many documents are returned where nothing is said of that.
pub fn default_n() -> (res: usize)
    ensures
        res == 20,
{
    20
}

/// The filter that demands the members of an object.
fn demand(members: serde_json::Map<String, Value>) -> (res: Option<Filter>)
    ensures
        filter_of(res) == demanding(members_of(members)),
{
    let ghost map = members_of(members);
    let entries = map_entries(members);
    proof {
        assert(distinct_names(entries@));
        assert forall|k: Seq<char>| entries_map(entries@).contains_key(k) == map.contains_key(k) by {
            if map.contains_key(k) {
                let i = choose|i: int| 0 <= i < entries@.len() && (#[trigger] entries@[i]).0@ == k;
                assert(entries@[i].0@ == k);
            }
            if entries_map(entries@).contains_key(k) {
                let i = choose|i: int| 0 <= i < entries@.len() && (#[trigger] entries@[i]).0@ == k;
                assert(map.contains_key(entries@[i].0@));
            }
        }
        assert forall|k: Seq<char>| entries_map(entries@).contains_key(k) implies entries_map(
            entries@,
        )[k] == map[k] by {
            let i = choose|i: int| 0 <= i < entries@.len() && (#[trigger] entries@[i]).0@ == k;
            assert(map.contains_key(entries@[i].0@));
        }
        assert(entries_map(entries@) =~= map);
    }
    let filter = Filter::from_entries(entries);
    if filter.is_empty() {
        None
    } else {
        Some(filter)
    }
}

/// The filter that a value stands for.
pub fn value_filter(value: Value) -> (res: Result<Option<Filter>, Refusal>)
    ensures
        match filter_from(json_of(value)) {
            Ok(filter) => res matches Ok(f) && filter_of(f) == filter,
            Err(refusal) => res == Err::<Option<Filter>, Refusal>(refusal),
        },
{
    match into_object(value) {
        Ok(members) => Ok(demand(members)),
        Err(_) => Err(Refusal::FilterNotObject),
    }
}

/// Reads a `where` parameter.
pub fn parse_filter(raw: Option<String>) -> (res: Result<Option<Filter>, Refusal>)
    ensures
        match filter_in(
            match raw {
                Some(text) => Some(text@),
                None => None,
            },
        ) {
            Ok(filter) => res matches Ok(f) && filter_of(f) == filter,
            Err(refusal) => res == Err::<Option<Filter>, Refusal>(refusal),
        },
{
    let text = match raw {
        None => {
            return Ok(None);
        },
        Some(text) => text,
    };
    match from_str(text.as_str()) {
        Err(_) => Err(Refusal::FilterNotJson),
        Ok(value) => value_filter(value),
    }
}

/// Takes a count out of a body.
fn take_count(members: &mut serde_json::Map<String, Value>, name: &str, default: usize) -> (res:
    Option<usize>)
    ensures
        res == count_in(Json::Object(members_of(*old(members))), name@, default),
        members_of(*final(members)) == members_of(*old(members)).remove(name@),
{
    match map_remove(members, name) {
        None => Some(default),
        Some(value) => match as_u64(&value) {
            Some(v) => Some(v as usize),
            None => None,
        },
    }
}

/// Reads the body of a reading.
pub fn parse_post_body(body: Value) -> (res: Result<PostQuery, Refusal>)
    ensures
        asked_of(res) == asked_in(json_of(body)),
{
    let mut members = match into_object(body) {
        Ok(members) => members,
        Err(_) => {
            return Err(Refusal::BodyNotObject);
        },
    };
    proof {
        reveal_strlit("n");
        reveal_strlit("offset");
        assert("n"@.len() != "offset"@.len());
    }
    let n = match take_count(&mut members, "n", default_n()) {
        Some(n) => n,
        None => {
            return Err(Refusal::BadCount);
        },
    };
    let offset = match take_count(&mut members, "offset", 0) {
        Some(offset) => offset,
        None => {
            return Err(Refusal::BadOffset);
        },
    };
    Ok(PostQuery { filter: demand(members), n, offset })
}

/// The reading that parameters ask for.
pub fn query_params(n: usize, offset: usize, raw: Option<String>) -> (res: Result<
    PostQuery,
    Refusal,
>)
    ensures
        asked_of(res) == asked_by(
            n,
            offset,
            match raw {
                Some(text) => Some(text@),
                None => None,
            },
        ),
        res matches Ok(query) ==> query.n == n && query.offset == offset,
{
    if n == 0 || n > MAX_COUNT {
        return Err(Refusal::CountOutOfRange);
    }
    match parse_filter(raw) {
        Err(refusal) => Err(refusal),
        Ok(filter) => Ok(PostQuery { filter, n, offset }),
    }
}

/// The reading that a body asks for.
pub fn query_body(body: Value) -> (res: Result<PostQuery, Refusal>)
    ensures
        asked_of(res) == posted(json_of(body)),
        res matches Ok(query) ==> query.n == (match member(json_of(body), "n"@) {
            Some(Json::PosInt(v)) => v as usize,
            _ => 20,
        }) && query.offset == (match member(json_of(body), "offset"@) {
            Some(Json::PosInt(v)) => v as usize,
            _ => 0,
        }),
{
    match parse_post_body(body) {
        Err(refusal) => Err(refusal),
        Ok(query) => if query.n == 0 || query.n > MAX_COUNT {
            Err(Refusal::CountOutOfRange)
        } else {
            Ok(query)
        },
    }
}

/// Accepts the body of an insertion of one document.
pub fn check_document(body: &Value) -> (res: Result<(), Refusal>)
    ensures
        res == if json_of(*body) is Object {
            Ok::<(), Refusal>(())
        } else {
            Err::<(), Refusal>(Refusal::BodyNotObject)
        },
{
    if is_object(body) {
        Ok(())
    } else {
        Err(Refusal::BodyNotObject)
    }
}

/// The documents in the body of an insertion of many.
pub fn batch_documents(body: Value) -> (res: Result<Vec<Value>, Refusal>)
    ensures
        match json_of(body) {
            Json::Array(list) => if list.len() > MAX_DOCUMENTS {
                res == Err::<Vec<Value>, Refusal>(Refusal::TooManyDocuments)
            } else {
                res matches Ok(docs) && jsons(docs@) == list
            },
            _ => res == Err::<Vec<Value>, Refusal>(Refusal::BodyNotArray),
        },
{
    match into_array(body) {
        Err(_) => Err(Refusal::BodyNotArray),
        Ok(docs) => if docs.len() > MAX_DOCUMENTS {
            Err(Refusal::TooManyDocuments)
        } else {
            Ok(docs)
        },
    }
}

/// The members `n` and `offset` of a body are never demanded of a document; every other member
/// is, and nothing else.
pub proof fn law_reserved_members_are_not_demanded(members: Map<Seq<char>, Json>, name: Seq<char>)
    requires
        asked_in(Json::Object(members)) is Ok,
    ensures
        ({
            let filter = asked_in(Json::Object(members))->Ok_0.filter;
            let demanded = filter matches Some(f) && f.contains_key(name);
            &&& demanded == (name != "n"@ && name != "offset"@ && members.contains_key(name))
            &&& demanded ==> filter.unwrap()[name] == members[name]
        }),
{
    let left = members.remove("n"@).remove("offset"@);
    if left == Map::<Seq<char>, Json>::empty() {
        assert(!left.contains_key(name));
    }
}

/// A filter in the parameters and the same filter in the body, with the same count and offset, ask
/// for the same.
pub proof fn law_parameters_and_body_agree(
    members: Map<Seq<char>, Json>,
    n: u64,
    offset: u64,
    raw: Seq<char>,
)
    requires
        json_parse(raw) == Some(Json::Object(members)),
        !members.contains_key("n"@),
        !members.contains_key("offset"@),
        n <= usize::MAX,
        offset <= usize::MAX,
    ensures
        posted(
            Json::Object(
                members.insert("n"@, Json::PosInt(n)).insert("offset"@, Json::PosInt(offset)),
            ),
        ) == asked_by(n as usize, offset as usize, Some(raw)),
{
    reveal_strlit("n");
    reveal_strlit("offset");
    assert("n"@.len() != "offset"@.len());
    let body = members.insert("n"@, Json::PosInt(n)).insert("offset"@, Json::PosInt(offset));
    assert(body.remove("n"@).remove("offset"@) =~= members);
}

} // verus!

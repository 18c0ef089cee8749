//! Laws of requests: which names are names, what is asked for, and who is let in.

use crate::auth::{
    allowed, first_segment, header_token, hex_value, lets_in, no_tokens, pair_value, path_db,
    percent_bytes, percent_decoded, str_of, variable_db, variable_tokens, Tokens,
};
use crate::document::MAX_DOC;
use crate::engine::MAX_OFFSET;
use crate::error::EngineError;
use crate::insertion::MAX_BATCH;
use crate::json::{json_parse, member, Json};
use crate::name::{
    alphanumeric, is_invalid_name, name_char, unicode_alphanumeric, valid_name, MAX_NAME,
};
use crate::query::{
    asked_by, asked_in, asked_of, count_in, filter_from, filter_in, posted, Asked, PostQuery,
    Refusal, MAX_COUNT, MAX_DOCUMENTS,
};
use vstd::prelude::*;
use vstd::utf8::{decode_utf8, encode_utf8, valid_utf8};

verus! {

// ---- names ----

/// A name of one character is a letter or a digit, `_` or `-`; outside ASCII, whatever Unicode
/// calls a letter or a digit.
pub proof fn law_names_of_one_character(c: char)
    ensures
        c <= '\u{7f}' ==> (valid_name(seq![c]) <==> 'a' <= c <= 'z' || 'A' <= c <= 'Z' || '0' <= c
            <= '9' || c == '_' || c == '-'),
        c > '\u{7f}' ==> (valid_name(seq![c]) <==> unicode_alphanumeric(c)),
        name_char(c) <==> valid_name(seq![c]),
        alphanumeric(c) <==> valid_name(seq![c]) && c != '_' && c != '-',
{
    let name = seq![c];
    assert(name[0] == c);
}

/// Two names make a name, unless that is longer than 128 characters; and the parts of a name are
/// names. Nothing is no name.
pub proof fn law_names_are_joined(a: Seq<char>, b: Seq<char>)
    requires
        a.len() > 0,
        b.len() > 0,
    ensures
        !valid_name(Seq::empty()),
        valid_name(a + b) <==> valid_name(a) && valid_name(b) && a.len() + b.len() <= 128,
{
    let both = a + b;
    if valid_name(both) {
        assert forall|i: int| 0 <= i < a.len() implies name_char(#[trigger] a[i]) by {
            assert(name_char(both[i]));
        }
        assert forall|i: int| 0 <= i < b.len() implies name_char(#[trigger] b[i]) by {
            assert(name_char(both[a.len() + i]));
        }
    }
}

/// The error for what is no name tells it.
pub proof fn law_a_bad_name_is_told(e: EngineError, name: Seq<char>)
    ensures
        is_invalid_name(e, name) <==> (e matches EngineError::InvalidName(text) && text@ == name),
{
}

/// The limits: how many documents a reading returns, how many it skips, and how many a batch
/// holds.
pub proof fn law_limits()
    ensures
        MAX_COUNT == 100_000,
        MAX_OFFSET == 10_000_000,
        MAX_DOCUMENTS == 10_000,
        MAX_DOC == 16 * 1024 * 1024,
        MAX_BATCH == 128 * 1024 * 1024,
        MAX_NAME == 128,
{
}

// ---- what is asked for ----

/// Parameters ask for as many documents as they say, after as many as they say, with or without a
/// filter; the filter demands what the object in the parameter holds.
pub proof fn law_parameters_ask_for_what_they_say(
    n: usize,
    offset: usize,
    raw: Option<Seq<char>>,
    name: Seq<char>,
)
    requires
        asked_by(n, offset, raw) is Ok,
    ensures
        ({
            let asked = asked_by(n, offset, raw)->Ok_0;
            &&& asked.n == n
            &&& asked.offset == offset
            &&& 1 <= n <= 100_000
            &&& raw is None ==> asked.filter is None
            &&& raw matches Some(text) ==> (json_parse(text) matches Some(j) && (j
                matches Json::Object(members) && {
                let demanded = asked.filter matches Some(f) && f.contains_key(name);
                &&& demanded <==> members.contains_key(name)
                &&& demanded ==> asked.filter.unwrap()[name] == members[name]
                &&& asked.filter is None <==> members.dom().is_empty()
            }))
        }),
{
    if let Some(text) = raw {
        let members = json_parse(text).unwrap()->Object_0;
        if members.dom().is_empty() {
            assert(members =~= Map::<Seq<char>, Json>::empty());
        }
        if members == Map::<Seq<char>, Json>::empty() {
            assert(!members.contains_key(name));
            assert(members.dom() =~= Set::empty());
        }
    }
}

/// Parameters are refused where fewer than one document or more than 100 000 are asked for, and
/// then where the filter is no JSON, or no object; they are never refused else.
pub proof fn law_when_parameters_are_refused(n: usize, offset: usize, raw: Option<Seq<char>>)
    ensures
        asked_by(n, offset, raw) == Err::<Asked, Refusal>(Refusal::CountOutOfRange) <==> n == 0 || n
            > 100_000,
        1 <= n <= 100_000 ==> (asked_by(n, offset, raw) == Err::<Asked, Refusal>(
            Refusal::FilterNotJson,
        ) <==> (raw matches Some(text) && json_parse(text) is None)),
        1 <= n <= 100_000 ==> (asked_by(n, offset, raw) == Err::<Asked, Refusal>(
            Refusal::FilterNotObject,
        ) <==> (raw matches Some(text) && (json_parse(text) matches Some(j) && !(j is Object)))),
        1 <= n <= 100_000 ==> (asked_by(n, offset, raw) is Ok <==> (raw matches Some(text) ==> (
        json_parse(text) matches Some(j) && j is Object))),
{
}

/// A body asks for as many documents as its member `n` says, or for 20, after as many as its
/// member `offset` says, or none, with or without other members; all others are demanded.
pub proof fn law_a_body_asks_for_what_it_says(members: Map<Seq<char>, Json>, name: Seq<char>)
    requires
        posted(Json::Object(members)) is Ok,
    ensures
        posted(Json::Object(members)) == asked_in(Json::Object(members)),
        ({
            let asked = posted(Json::Object(members))->Ok_0;
            let demanded = asked.filter matches Some(f) && f.contains_key(name);
            &&& 1 <= asked.n <= 100_000
            &&& members.contains_key("n"@) ==> (members["n"@] matches Json::PosInt(v) && asked.n
                == v as usize)
            &&& !members.contains_key("n"@) ==> asked.n == 20
            &&& members.contains_key("offset"@) ==> (members["offset"@] matches Json::PosInt(v)
                && asked.offset == v as usize)
            &&& !members.contains_key("offset"@) ==> asked.offset == 0
            &&& demanded <==> members.contains_key(name) && name != "n"@ && name != "offset"@
            &&& demanded ==> asked.filter.unwrap()[name] == members[name]
            &&& asked.filter is Some ==> exists|k: Seq<char>| #[trigger]
                members.contains_key(k) && k != "n"@ && k != "offset"@
        }),
{
    let left = members.remove("n"@).remove("offset"@);
    if left == Map::<Seq<char>, Json>::empty() {
        assert(!left.contains_key(name));
    } else {
        assert(exists|k: Seq<char>| #[trigger] left.contains_key(k)) by {
            if forall|k: Seq<char>| !#[trigger] left.contains_key(k) {
                assert(left =~= Map::<Seq<char>, Json>::empty());
            }
        }
        let k = choose|k: Seq<char>| #[trigger] left.contains_key(k);
        assert(members.contains_key(k) && k != "n"@ && k != "offset"@);
    }
}

/// What a body asks for before its count is looked at is the same, whatever the count.
pub proof fn law_a_body_is_read_before_its_count_is_judged(members: Map<Seq<char>, Json>)
    requires
        asked_in(Json::Object(members)) is Ok,
    ensures
        ({
            let asked = asked_in(Json::Object(members))->Ok_0;
            &&& members.contains_key("n"@) ==> (members["n"@] matches Json::PosInt(v) && asked.n
                == v as usize)
            &&& !members.contains_key("n"@) ==> asked.n == 20
            &&& members.contains_key("offset"@) ==> (members["offset"@] matches Json::PosInt(v)
                && asked.offset == v as usize)
            &&& !members.contains_key("offset"@) ==> asked.offset == 0
            &&& 1 <= asked.n <= 100_000 ==> posted(Json::Object(members)) == Ok::<Asked, Refusal>(
                asked,
            )
            &&& asked.n == 0 || asked.n > 100_000 ==> posted(Json::Object(members)) == Err::<
                Asked,
                Refusal,
            >(Refusal::CountOutOfRange)
        }),
{
}

/// A body is refused where it is no object, then where its member `n` is no count, and then where
/// its member `offset` is none; before its count is judged it is never refused else.
pub proof fn law_when_a_body_is_refused(body: Json)
    ensures
        ({
            let no_n = member(body, "n"@) matches Some(v) && !(v is PosInt);
            let no_offset = member(body, "offset"@) matches Some(v) && !(v is PosInt);
            &&& !(body is Object) ==> asked_in(body) == Err::<Asked, Refusal>(
                Refusal::BodyNotObject,
            )
            &&& body is Object && no_n ==> asked_in(body) == Err::<Asked, Refusal>(
                Refusal::BadCount,
            )
            &&& body is Object && !no_n && no_offset ==> asked_in(body) == Err::<Asked, Refusal>(
                Refusal::BadOffset,
            )
            &&& body is Object && !no_n && !no_offset ==> asked_in(body) is Ok
            &&& asked_in(body) matches Err(refusal) ==> posted(body) == Err::<Asked, Refusal>(
                refusal,
            )
        }),
{
}

/// The count in a member: the default where the member is missing, the number where it is a
/// non-negative integer, and none where it is anything else.
pub proof fn law_counts_in_a_body(
    members: Map<Seq<char>, Json>,
    name: Seq<char>,
    v: u64,
    other: Json,
    default: usize,
)
    requires
        !(other is PosInt),
    ensures
        count_in(Json::Object(members.remove(name)), name, default) == Some(default),
        count_in(Json::Object(members.insert(name, Json::PosInt(v))), name, default) == Some(
            v as usize,
        ),
        count_in(Json::Object(members.insert(name, other)), name, default) is None,
{
}

/// A `where` parameter demands the members of its object; an object without members demands
/// nothing, and so does a missing parameter.
pub proof fn law_a_where_parameter_demands_its_members(
    text: Seq<char>,
    members: Map<Seq<char>, Json>,
    name: Seq<char>,
    value: Json,
    other: Json,
)
    requires
        !(other is Object),
    ensures
        filter_in(None) == Ok::<Option<Map<Seq<char>, Json>>, Refusal>(None),
        match json_parse(text) {
            Some(j) => filter_in(Some(text)) == filter_from(j),
            None => filter_in(Some(text)) == Err::<Option<Map<Seq<char>, Json>>, Refusal>(
                Refusal::FilterNotJson,
            ),
        },
        filter_from(Json::Object(Map::empty())) == Ok::<Option<Map<Seq<char>, Json>>, Refusal>(
            None,
        ),
        filter_from(Json::Object(members.insert(name, value))) == Ok::<
            Option<Map<Seq<char>, Json>>,
            Refusal,
        >(Some(members.insert(name, value))),
        filter_from(other) == Err::<Option<Map<Seq<char>, Json>>, Refusal>(
            Refusal::FilterNotObject,
        ),
{
    assert(members.insert(name, value).contains_key(name));
}

/// What a reading asks for is what it says: its count, its offset and what its filter demands.
pub proof fn law_a_reading_asks_for_what_it_says(query: PostQuery, refusal: Refusal)
    ensures
        query@.n == query.n,
        query@.offset == query.offset,
        query.filter is None ==> query@.filter is None,
        query.filter matches Some(f) ==> query@.filter == Some(f@),
        asked_of(Ok(query)) == Ok::<Asked, Refusal>(query@),
        asked_of(Err(refusal)) == Err::<Asked, Refusal>(refusal),
{
}

// ---- tokens ----

/// Nothing is configured where there is neither a global token nor one of any database.
pub proof fn law_nothing_is_configured(tokens: Tokens)
    ensures
        no_tokens(tokens) <==> tokens.global is None && forall|db: Seq<char>|
            !tokens.per_db.contains_key(db),
{
    if forall|db: Seq<char>| !tokens.per_db.contains_key(db) {
        assert(tokens.per_db =~= Map::<Seq<char>, Seq<char>>::empty());
    }
}

/// A database without a token of its own, where there is no global one, is open to all; otherwise
/// it takes its own token or the global one.
pub proof fn law_a_database_takes_its_tokens(
    tokens: Tokens,
    provided: Option<Seq<char>>,
    db: Seq<char>,
)
    ensures
        allowed(tokens, provided, Some(db)) <==> {
            ||| tokens.global is None && !tokens.per_db.contains_key(db)
            ||| provided matches Some(token) && (tokens.global == Some(token)
                || tokens.per_db.contains_key(db) && tokens.per_db[db] == token)
        },
{
}

/// What belongs to no database is open where there is no global token; otherwise it takes that.
pub proof fn law_what_belongs_to_no_database_takes_the_global_token(
    tokens: Tokens,
    provided: Option<Seq<char>>,
)
    ensures
        allowed(tokens, provided, None) <==> tokens.global is None || (provided matches Some(token)
            && tokens.global == Some(token)),
{
}

/// A request is let in as its path and its token say: a path to a database takes what the database
/// takes, one that should lead to a database and does not takes the global token unless nothing is
/// configured, and any other path takes what belongs to no database.
pub proof fn law_who_is_let_in(
    tokens: Tokens,
    path: Seq<char>,
    header: Option<Seq<char>>,
    db: Seq<char>,
)
    ensures
        path_db(path) == Some(db) ==> (lets_in(tokens, path, header) <==> allowed(
            tokens,
            header_token(header),
            Some(db),
        )),
        !"/v1/"@.is_prefix_of(path) ==> (lets_in(tokens, path, header) <==> allowed(
            tokens,
            header_token(header),
            None,
        )),
        "/v1/"@.is_prefix_of(path) && path_db(path) is None ==> (lets_in(tokens, path, header) <==> {
            ||| tokens.global is None && forall|d: Seq<char>| !tokens.per_db.contains_key(d)
            ||| header_token(header) matches Some(token) && tokens.global == Some(token)
        }),
{
    law_nothing_is_configured(tokens);
}

/// A header that starts with `Bearer ` holds the token that follows; no other header holds one.
pub proof fn law_a_header_holds_its_token(token: Seq<char>, other: Seq<char>)
    requires
        !"Bearer "@.is_prefix_of(other),
    ensures
        header_token(Some("Bearer "@ + token)) == Some(token),
        header_token(Some(other)) is None,
        header_token(None) is None,
{
    let header = "Bearer "@ + token;
    assert("Bearer "@ =~= header.take("Bearer "@.len() as int));
    assert(token =~= header.skip("Bearer "@.len() as int));
}

/// A variable that is called `KGDB_AUTH_TOKEN_` and a database sets the token of the database; no
/// other variable does.
pub proof fn law_a_variable_names_its_database(db: Seq<char>, other: Seq<char>)
    requires
        !"KGDB_AUTH_TOKEN_"@.is_prefix_of(other),
    ensures
        db.len() > 0 ==> variable_db("KGDB_AUTH_TOKEN_"@ + db) == Some(db),
        variable_db("KGDB_AUTH_TOKEN_"@) is None,
        variable_db(other) is None,
{
    let prefix = "KGDB_AUTH_TOKEN_"@;
    let key = prefix + db;
    assert(prefix =~= key.take(prefix.len() as int));
    assert(db =~= key.skip(prefix.len() as int));
}

/// Variables set tokens one after the other, so that the last one for a database counts; a
/// variable that names no database sets none.
pub proof fn law_variables_set_tokens_in_turn(
    vars: Seq<(String, String)>,
    key: String,
    token: String,
)
    ensures
        variable_tokens(Seq::empty()) == Map::<Seq<char>, Seq<char>>::empty(),
        match variable_db(key@) {
            Some(db) => variable_tokens(vars.push((key, token))) == variable_tokens(vars).insert(
                db,
                token@,
            ),
            None => variable_tokens(vars.push((key, token))) == variable_tokens(vars),
        },
{
    assert(vars.push((key, token)).drop_last() =~= vars);
}

/// The text of an optional string slice is that of the slice.
pub proof fn law_the_text_of_a_slice(s: &str)
    ensures
        str_of(Some(s)) == Some(s@),
        str_of(None) is None,
{
}

// ---- paths ----

/// The digits have their values, in lower and in upper case, and nothing else is a digit; of two
/// digits the first counts sixteen times.
pub proof fn law_values_of_digits(d: int, byte: u8, other: u8)
    requires
        0 <= d < 16,
    ensures
        byte as char == "0123456789abcdef"@[d] ==> hex_value(byte) == Some(d),
        byte as char == "0123456789ABCDEF"@[d] ==> hex_value(byte) == Some(d),
        hex_value(byte) == Some(d) ==> byte as char == "0123456789abcdef"@[d] || byte as char
            == "0123456789ABCDEF"@[d],
        hex_value(byte) matches Some(v) ==> 0 <= v < 16,
        pair_value(byte, other) is Some <==> hex_value(byte) is Some && hex_value(other) is Some,
        pair_value(byte, other) matches Some(v) ==> v / 16 == hex_value(byte).unwrap() && v % 16
            == hex_value(other).unwrap(),
{
    reveal_strlit("0123456789abcdef");
    reveal_strlit("0123456789ABCDEF");
}

/// Bytes are read one after the other: any byte but `%` stands for itself, `%` and two digits
/// stand for the byte of that value, and any other `%` leaves all without a meaning.
pub proof fn law_escapes_are_read_in_order(byte: u8, a: u8, b: u8, rest: Seq<u8>)
    ensures
        percent_bytes(Seq::empty()) == Some(Seq::<u8>::empty()),
        byte != 37 ==> match percent_bytes(rest) {
            Some(bytes) => percent_bytes(seq![byte] + rest) == Some(seq![byte] + bytes),
            None => percent_bytes(seq![byte] + rest) is None,
        },
        match (pair_value(a, b), percent_bytes(rest)) {
            (Some(v), Some(bytes)) => percent_bytes(seq![37u8, a, b] + rest) == Some(
                seq![v as u8] + bytes,
            ),
            _ => percent_bytes(seq![37u8, a, b] + rest) is None,
        },
        percent_bytes(seq![37u8]) is None,
        percent_bytes(seq![37u8, a]) is None,
{
    let plain_byte = seq![byte] + rest;
    assert(plain_byte.drop_first() =~= rest);
    let escape = seq![37u8, a, b] + rest;
    assert(escape.skip(3) =~= rest);
}

/// A segment stands for the text of its bytes, where they are text.
pub proof fn law_a_segment_stands_for_its_text(text: Seq<char>)
    ensures
        match percent_bytes(encode_utf8(text)) {
            Some(bytes) => if valid_utf8(bytes) {
                percent_decoded(text) == Some(decode_utf8(bytes))
            } else {
                percent_decoded(text) is None
            },
            None => percent_decoded(text) is None,
        },
{
}

/// The first segment of a text is what stands before its first slash, or all of it.
pub proof fn law_the_first_segment_ends_at_a_slash(segment: Seq<char>, rest: Seq<char>)
    requires
        !segment.contains('/'),
    ensures
        first_segment(segment) == segment,
        first_segment(segment + seq!['/'] + rest) == segment,
    decreases segment.len(),
{
    let text = segment + seq!['/'] + rest;
    if segment.len() == 0 {
        assert(text[0] == '/');
        assert(first_segment(text) =~= segment);
        assert(first_segment(segment) =~= segment);
    } else {
        let less = segment.drop_first();
        assert(segment.contains(segment[0]));
        assert forall|i: int| 0 <= i < less.len() implies less[i] != '/' by {
            assert(segment.contains(segment[i + 1]));
        }
        law_the_first_segment_ends_at_a_slash(less, rest);
        assert(text.drop_first() =~= less + seq!['/'] + rest);
        assert(seq![segment[0]] + less =~= segment);
    }
}

/// A path leads to the database that its first segment behind `/v1/` stands for, whatever follows;
/// a path without such a segment, or with one that stands for nothing or holds a slash, leads to
/// none.
pub proof fn law_a_path_leads_to_its_database(
    segment: Seq<char>,
    rest: Seq<char>,
    other: Seq<char>,
)
    requires
        !segment.contains('/'),
        !"/v1/"@.is_prefix_of(other),
    ensures
        path_db(other) is None,
        path_db("/v1/"@ + segment + seq!['/'] + rest) == path_db("/v1/"@ + segment),
        match percent_decoded(segment) {
            Some(db) => if db.len() > 0 && !db.contains('/') {
                path_db("/v1/"@ + segment) == Some(db)
            } else {
                path_db("/v1/"@ + segment) is None
            },
            None => path_db("/v1/"@ + segment) is None,
        },
{
    let prefix = "/v1/"@;
    let short = prefix + segment;
    let long = prefix + segment + seq!['/'] + rest;
    law_the_first_segment_ends_at_a_slash(segment, rest);
    assert(prefix =~= short.take(prefix.len() as int));
    assert(prefix =~= long.take(prefix.len() as int));
    assert(short.skip(prefix.len() as int) =~= segment);
    assert(long.skip(prefix.len() as int) =~= segment + seq!['/'] + rest);
}

} // verus!

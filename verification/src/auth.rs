//! Bearer tokens: which requests are let in.

use crate::text::{chars, strip_prefix, substring, text_of, utf8_string};
use vstd::hash_map::StringHashMap;
use vstd::prelude::*;
use vstd::utf8::{decode_utf8, encode_utf8, valid_utf8};

verus! {

// ---- tokens ----

/// The tokens that are configured: at most one for everything, and at most one per database.
#[verifier::ext_equal]
pub struct Tokens {
    pub global: Option<Seq<char>>,
    pub per_db: Map<Seq<char>, Seq<char>>,
}

/// Token configuration: one optional global token and tokens of databases.
pub struct AuthConfig {
    global: Option<String>,
    per_db: StringHashMap<String>,
}

/// The text of an optional string slice.
pub open spec fn str_of(s: Option<&str>) -> Option<Seq<char>> {
    match s {
        Some(text) => Some(text@),
        None => None,
    }
}

impl View for AuthConfig {
    type V = Tokens;

    closed spec fn view(&self) -> Tokens {
        Tokens {
            global: text_of(self.global),
            per_db: self.per_db@.map_values(|token: String| token@),
        }
    }
}

/// No token is configured.
pub open spec fn no_tokens(tokens: Tokens) -> bool {
    tokens.global is None && tokens.per_db == Map::<Seq<char>, Seq<char>>::empty()
}

/// The token is one of those that apply to a database, or, without a database, the global one.
pub open spec fn accepts(tokens: Tokens, db: Option<Seq<char>>, token: Seq<char>) -> bool {
    ||| tokens.global == Some(token)
    ||| db matches Some(d) && tokens.per_db.contains_key(d) && tokens.per_db[d] == token
}

/// A token applies to a database, or, without a database, the global one does.
pub open spec fn guarded(tokens: Tokens, db: Option<Seq<char>>) -> bool {
    ||| tokens.global is Some
    ||| db matches Some(d) && tokens.per_db.contains_key(d)
}

/// Access is open where no token applies, and otherwise takes one that does.
pub open spec fn allowed(
    tokens: Tokens,
    provided: Option<Seq<char>>,
    db: Option<Seq<char>>,
) -> bool {
    !guarded(tokens, db) || (provided matches Some(token) && accepts(tokens, db, token))
}

/// The database whose token a variable of the environment sets.
pub open spec fn variable_db(key: Seq<char>) -> Option<Seq<char>> {
    let prefix = "KGDB_AUTH_TOKEN_"@;
    if prefix.is_prefix_of(key) && key.len() > prefix.len() {
        Some(key.skip(prefix.len() as int))
    } else {
        None
    }
}

/// The tokens of databases that variables of the environment set; the last one for a database
/// counts.
pub open spec fn variable_tokens(vars: Seq<(String, String)>) -> Map<Seq<char>, Seq<char>>
    decreases vars.len(),
{
    if vars.len() == 0 {
        Map::empty()
    } else {
        let before = variable_tokens(vars.drop_last());
        match variable_db(vars.last().0@) {
            Some(db) => before.insert(db, vars.last().1@),
            None => before,
        }
    }
}

/// Whether two byte strings are equal, in a time that depends on their lengths alone.
pub fn ct_eq(a: &[u8], b: &[u8]) -> (res: bool)
    ensures
        res == (a@ == b@),
{
    if a.len() != b.len() {
        return false;
    }
    let mut diff: u8 = 0;
    let mut i: usize = 0;
    assert(a@.take(0) =~= b@.take(0));
    while i < a.len()
        invariant
            i <= a@.len(),
            a@.len() == b@.len(),
            diff == 0 <==> a@.take(i as int) == b@.take(i as int),
        decreases a@.len() - i,
    {
        let x = a[i];
        let y = b[i];
        let before = diff;
        diff = diff | (x ^ y);
        proof {
            assert((before | (x ^ y)) == 0 <==> before == 0 && x == y) by (bit_vector);
            assert(a@.take(i + 1).drop_last() =~= a@.take(i as int));
            assert(b@.take(i + 1).drop_last() =~= b@.take(i as int));
            assert(a@.take(i + 1) =~= a@.take(i as int).push(x));
            assert(b@.take(i + 1) =~= b@.take(i as int).push(y));
            assert(a@.take(i + 1).last() == x);
            assert(b@.take(i + 1).last() == y);
        }
        i = i + 1;
    }
    assert(a@.take(a@.len() as int) =~= a@);
    assert(b@.take(b@.len() as int) =~= b@);
    diff == 0
}

/// Whether two tokens are the same.
fn same_token(a: &str, b: &str) -> (res: bool)
    ensures
        res == (a@ == b@),
{
    proof {
        vstd::utf8::encode_utf8_decode_utf8(a@);
        vstd::utf8::encode_utf8_decode_utf8(b@);
    }
    ct_eq(a.as_bytes(), b.as_bytes())
}

/// The database whose token a variable of the environment sets, where it sets one.
pub fn token_db(key: &str) -> (res: Option<String>)
    ensures
        text_of(res) == variable_db(key@),
{
    let prefix = "KGDB_AUTH_TOKEN_";
    match strip_prefix(key, prefix) {
        Some(db) => {
            proof {
                assert(prefix@ =~= key@.take(prefix@.len() as int));
                assert(db@ =~= key@.skip(prefix@.len() as int));
            }
            if db.as_str().is_empty() {
                None
            } else {
                Some(db)
            }
        },
        None => None,
    }
}

impl AuthConfig {
    /// The configuration that a global token and variables of the environment make.
    pub fn new(global: Option<String>, vars: &Vec<(String, String)>) -> (res: AuthConfig)
        ensures
            res@ == (Tokens { global: text_of(global), per_db: variable_tokens(vars@) }),
    {
        let mut per_db: StringHashMap<String> = StringHashMap::new();
        let mut i: usize = 0;
        assert(vars@.take(0) =~= seq![]);
        assert(per_db@.map_values(|token: String| token@) =~= variable_tokens(vars@.take(0)));
        while i < vars.len()
            invariant
                i <= vars@.len(),
                per_db@.map_values(|token: String| token@) == variable_tokens(
                    vars@.take(i as int),
                ),
            decreases vars@.len() - i,
        {
            let ghost before = per_db@;
            proof {
                assert(vars@.take(i + 1).drop_last() =~= vars@.take(i as int));
                assert(vars@.take(i + 1).last() == vars@[i as int]);
            }
            match token_db(vars[i].0.as_str()) {
                Some(db) => {
                    per_db.insert(db, vars[i].1.clone());
                    assert(per_db@.map_values(|token: String| token@) =~= before.map_values(
                        |token: String| token@,
                    ).insert(db@, vars@[i as int].1@));
                },
                None => {},
            }
            i = i + 1;
        }
        assert(vars@.take(vars@.len() as int) =~= vars@);
        AuthConfig { global, per_db }
    }

    /// Whether no token is configured at all.
    pub fn disabled(&self) -> (res: bool)
        ensures
            res == no_tokens(self@),
    {
        proof {
            let map = self.per_db@;
            if map.is_empty() {
                assert(self@.per_db =~= Map::<Seq<char>, Seq<char>>::empty());
            } else if self@.per_db == Map::<Seq<char>, Seq<char>>::empty() {
                assert(map.dom() =~= self@.per_db.dom());
                assert(map =~= Map::empty());
            }
        }
        self.global.is_none() && self.per_db.is_empty()
    }

    /// Whether a request with the provided token may reach a database, or, without a database,
    /// the server itself.
    pub fn is_authorized(&self, provided: Option<&str>, db: Option<&str>) -> (res: bool)
        ensures
            res == allowed(self@, str_of(provided), str_of(db)),
    {
        let own = match db {
            Some(d) => self.per_db.get(d),
            None => None,
        };
        if self.global.is_none() && own.is_none() {
            return true;
        }
        let token = match provided {
            Some(token) => token,
            None => {
                return false;
            },
        };
        match &self.global {
            Some(g) => {
                if same_token(token, g.as_str()) {
                    return true;
                }
            },
            None => {},
        }
        match own {
            Some(t) => same_token(token, t.as_str()),
            None => false,
        }
    }
}

// ---- paths ----

/// The value of a hexadecimal digit.
pub open spec fn hex_value(byte: u8) -> Option<int> {
    if 48 <= byte <= 57 {
        Some(byte - 48)
    } else if 65 <= byte <= 70 {
        Some(byte - 55)
    } else if 97 <= byte <= 102 {
        Some(byte - 87)
    } else {
        None
    }
}

/// The value of two hexadecimal digits.
pub open spec fn pair_value(a: u8, b: u8) -> Option<int> {
    match (hex_value(a), hex_value(b)) {
        (Some(x), Some(y)) => Some(16 * x + y),
        _ => None,
    }
}

/// Bytes in which `%` and two digits stand for one byte. There is no meaning to another `%`.
pub open spec fn percent_bytes(bytes: Seq<u8>) -> Option<Seq<u8>>
    decreases bytes.len(),
{
    if bytes.len() == 0 {
        Some(seq![])
    } else if bytes[0] != 37 {
        match percent_bytes(bytes.drop_first()) {
            Some(rest) => Some(seq![bytes[0]] + rest),
            None => None,
        }
    } else if bytes.len() < 3 {
        None
    } else {
        match (pair_value(bytes[1], bytes[2]), percent_bytes(bytes.skip(3))) {
            (Some(value), Some(rest)) => Some(seq![value as u8] + rest),
            _ => None,
        }
    }
}

/// The text that a segment of a path stands for.
pub open spec fn percent_decoded(text: Seq<char>) -> Option<Seq<char>> {
    match percent_bytes(encode_utf8(text)) {
        Some(bytes) => if valid_utf8(bytes) {
            Some(decode_utf8(bytes))
        } else {
            None
        },
        None => None,
    }
}

/// What comes before the first slash.
pub open spec fn first_segment(text: Seq<char>) -> Seq<char>
    decreases text.len(),
{
    if text.len() == 0 || text[0] == '/' {
        seq![]
    } else {
        seq![text[0]] + first_segment(text.drop_first())
    }
}

/// The database that a path leads to.
pub open spec fn path_db(path: Seq<char>) -> Option<Seq<char>> {
    let prefix = "/v1/"@;
    if !prefix.is_prefix_of(path) {
        None
    } else {
        match percent_decoded(first_segment(path.skip(prefix.len() as int))) {
            Some(db) => if db.len() == 0 || db.contains('/') {
                None
            } else {
                Some(db)
            },
            None => None,
        }
    }
}

/// The token in the value of an `Authorization` header.
pub open spec fn header_token(header: Option<Seq<char>>) -> Option<Seq<char>> {
    match header {
        Some(value) => if "Bearer "@.is_prefix_of(value) {
            Some(value.skip("Bearer "@.len() as int))
        } else {
            None
        },
        None => None,
    }
}

/// Whether a request for a path, with a value of its `Authorization` header, is let in. A path
/// that should lead to a database but leads to none is not open, unless everything is.
pub open spec fn lets_in(
    tokens: Tokens,
    path: Seq<char>,
    header: Option<Seq<char>>,
) -> bool {
    let token = header_token(header);
    if "/v1/"@.is_prefix_of(path) && path_db(path) is None {
        no_tokens(tokens) || (token is Some && tokens.global == token)
    } else {
        allowed(tokens, token, path_db(path))
    }
}

/// The value of a hexadecimal digit.
fn hex_digit(byte: u8) -> (res: Option<u8>)
    ensures
        match res {
            Some(v) => hex_value(byte) == Some(v as int) && v < 16,
            None => hex_value(byte) is None,
        },
{
    if 48 <= byte && byte <= 57 {
        Some(byte - 48)
    } else if 65 <= byte && byte <= 70 {
        Some(byte - 55)
    } else if 97 <= byte && byte <= 102 {
        Some(byte - 87)
    } else {
        None
    }
}

/// The value of two bytes that follow `%`.
fn digit_pair(a: u8, b: u8) -> (res: Option<u8>)
    ensures
        match res {
            Some(v) => pair_value(a, b) == Some(v as int),
            None => pair_value(a, b) is None,
        },
{
    match (hex_digit(a), hex_digit(b)) {
        (Some(x), Some(y)) => Some(16 * x + y),
        _ => None,
    }
}

/// The bytes, with those of the rest after them.
pub open spec fn followed(before: Seq<u8>, rest: Option<Seq<u8>>) -> Option<Seq<u8>> {
    match rest {
        Some(bytes) => Some(before + bytes),
        None => None,
    }
}

/// Decodes a segment of a path.
pub fn percent_decode(s: &str) -> (res: Option<String>)
    ensures
        text_of(res) == percent_decoded(s@),
{
    let bytes = s.as_bytes();
    let ghost all = percent_bytes(bytes@);
    let mut out: Vec<u8> = Vec::new();
    let mut i: usize = 0;
    proof {
        assert(bytes@.skip(0) =~= bytes@);
        if all is Some {
            assert(out@ + all.unwrap() =~= all.unwrap());
        }
    }
    while i < bytes.len()
        invariant
            i <= bytes@.len(),
            bytes@ == encode_utf8(s@),
            all == percent_bytes(bytes@),
            all == followed(out@, percent_bytes(bytes@.skip(i as int))),
        decreases bytes@.len() - i,
    {
        let ghost here = bytes@.skip(i as int);
        let ghost before = out@;
        if bytes[i] == 37 {
            if bytes.len() - i < 3 {
                return None;
            }
            match digit_pair(bytes[i + 1], bytes[i + 2]) {
                None => {
                    return None;
                },
                Some(value) => {
                    out.push(value);
                    proof {
                        assert(here[0] == bytes@[i as int]);
                        assert(here[1] == bytes@[i + 1]);
                        assert(here[2] == bytes@[i + 2]);
                        assert(here.skip(3) =~= bytes@.skip(i + 3));
                        assert(forall|rest: Seq<u8>| #[trigger]
                            (before + (seq![value] + rest)) =~= out@ + rest);
                    }
                },
            }
            i = i + 3;
        } else {
            let byte = bytes[i];
            out.push(byte);
            proof {
                assert(here.drop_first() =~= bytes@.skip(i + 1));
                assert(forall|rest: Seq<u8>| #[trigger]
                    (before + (seq![byte] + rest)) =~= out@ + rest);
            }
            i = i + 1;
        }
    }
    assert(out@ + seq![] =~= out@);
    utf8_string(out)
}

/// What comes before the first slash from `from` on.
fn segment_from(cs: &Vec<char>, from: usize) -> (res: String)
    requires
        from <= cs@.len(),
    ensures
        res@ == first_segment(cs@.skip(from as int)),
{
    let mut i: usize = from;
    assert(cs@.subrange(from as int, from as int) + first_segment(cs@.skip(from as int))
        =~= first_segment(cs@.skip(from as int)));
    while i < cs.len() && cs[i] != '/'
        invariant
            from <= i <= cs@.len(),
            cs@.subrange(from as int, i as int) + first_segment(cs@.skip(i as int))
                == first_segment(cs@.skip(from as int)),
        decreases cs@.len() - i,
    {
        proof {
            let here = cs@.skip(i as int);
            assert(here.drop_first() =~= cs@.skip(i + 1));
            assert(cs@.subrange(from as int, i as int) + (seq![cs@[i as int]] + first_segment(
                cs@.skip(i + 1),
            )) =~= cs@.subrange(from as int, i + 1) + first_segment(cs@.skip(i + 1)));
        }
        i = i + 1;
    }
    assert(cs@.subrange(from as int, i as int) + seq![] =~= cs@.subrange(from as int, i as int));
    substring(cs, from, i)
}

/// Whether a text holds a slash.
fn has_slash(s: &str) -> (res: bool)
    ensures
        res == s@.contains('/'),
{
    let cs = chars(s);
    let mut i: usize = 0;
    while i < cs.len()
        invariant
            i <= cs@.len(),
            cs@ == s@,
            forall|k: int| 0 <= k < i ==> cs@[k] != '/',
        decreases cs@.len() - i,
    {
        if cs[i] == '/' {
            assert(s@.contains(cs@[i as int]));
            return true;
        }
        i = i + 1;
    }
    false
}

/// The database that a path of the form `/v1/{db}/...` leads to. There is none where the segment
/// is missing, empty, or cannot be decoded, which never means that access is open.
pub fn extract_db(path: &str) -> (res: Option<String>)
    ensures
        text_of(res) == path_db(path@),
        res matches Some(db) ==> db@.len() > 0 && !db@.contains('/'),
{
    let prefix = "/v1/";
    let rest = match strip_prefix(path, prefix) {
        None => {
            return None;
        },
        Some(rest) => rest,
    };
    proof {
        assert(prefix@ =~= path@.take(prefix@.len() as int));
        assert(rest@ =~= path@.skip(prefix@.len() as int));
    }
    let cs = chars(rest.as_str());
    assert(cs@.skip(0) =~= cs@);
    let segment = segment_from(&cs, 0);
    match percent_decode(segment.as_str()) {
        None => None,
        Some(db) => if db.as_str().is_empty() || has_slash(db.as_str()) {
            None
        } else {
            Some(db)
        },
    }
}

/// The token in the value of an `Authorization` header.
pub fn bearer_token(header: &str) -> (res: Option<String>)
    ensures
        text_of(res) == header_token(Some(header@)),
{
    let prefix = "Bearer ";
    match strip_prefix(header, prefix) {
        None => None,
        Some(token) => {
            proof {
                assert(prefix@ =~= header@.take(prefix@.len() as int));
                assert(token@ =~= header@.skip(prefix@.len() as int));
            }
            Some(token)
        },
    }
}

impl AuthConfig {
    /// Whether a request is let in.
    pub fn check(&self, path: &str, header: Option<&str>) -> (res: bool)
        ensures
            res == lets_in(self@, path@, str_of(header)),
    {
        let token = match header {
            Some(value) => bearer_token(value),
            None => None,
        };
        let provided = match &token {
            Some(token) => Some(token.as_str()),
            None => None,
        };
        match extract_db(path) {
            Some(db) => self.is_authorized(provided, Some(db.as_str())),
            None => match strip_prefix(path, "/v1/") {
                None => self.is_authorized(provided, None),
                Some(rest) => {
                    proof {
                        assert("/v1/"@ =~= path@.take("/v1/"@.len() as int));
                    }
                    self.disabled() || (match (&self.global, provided) {
                        (Some(g), Some(token)) => same_token(token, g.as_str()),
                        _ => false,
                    })
                },
            },
        }
    }
}

// ---- laws ----

/// Without tokens everything is open.
pub proof fn law_without_tokens_all_is_open(
    tokens: Tokens,
    path: Seq<char>,
    header: Option<Seq<char>>,
)
    requires
        no_tokens(tokens),
    ensures
        lets_in(tokens, path, header),
{
}

/// The global token opens everything.
pub proof fn law_the_global_token_opens_all(tokens: Tokens, path: Seq<char>, token: Seq<char>)
    requires
        tokens.global == Some(token),
    ensures
        lets_in(tokens, path, Some("Bearer "@ + token)),
{
    let header = "Bearer "@ + token;
    assert("Bearer "@ =~= header.take("Bearer "@.len() as int));
    assert(token =~= header.skip("Bearer "@.len() as int));
}

/// With a global token nothing is open: without a token no request is let in.
pub proof fn law_a_global_token_closes_all(tokens: Tokens, path: Seq<char>)
    requires
        tokens.global is Some,
    ensures
        !lets_in(tokens, path, None),
{
}

/// The token of a database is asked for by that database only: another one without a token stays
/// open, unless there is a global token.
pub proof fn law_other_databases_stay_open(
    tokens: Tokens,
    path: Seq<char>,
    db: Seq<char>,
    header: Option<Seq<char>>,
)
    requires
        tokens.global is None,
        path_db(path) == Some(db),
        !tokens.per_db.contains_key(db),
    ensures
        lets_in(tokens, path, header),
{
}

/// A database with a token lets in its token and the global one, and nothing else.
pub proof fn law_a_database_is_guarded(
    tokens: Tokens,
    path: Seq<char>,
    db: Seq<char>,
    header: Option<Seq<char>>,
)
    requires
        path_db(path) == Some(db),
        tokens.per_db.contains_key(db),
    ensures
        lets_in(tokens, path, header) <==> (header_token(header) matches Some(token) && (token
            == tokens.per_db[db] || tokens.global == Some(token))),
{
}

/// Where any token is configured, a path whose database cannot be told takes the global token.
pub proof fn law_an_unknown_database_is_never_open(
    tokens: Tokens,
    path: Seq<char>,
    header: Option<Seq<char>>,
)
    requires
        !no_tokens(tokens),
        "/v1/"@.is_prefix_of(path),
        path_db(path) is None,
    ensures
        lets_in(tokens, path, header) <==> (header_token(header) is Some && header_token(header)
            == tokens.global),
{
}

proof fn lemma_plain_bytes(bytes: Seq<u8>)
    requires
        !bytes.contains(37),
    ensures
        percent_bytes(bytes) == Some(bytes),
    decreases bytes.len(),
{
    if bytes.len() > 0 {
        assert(bytes.contains(bytes[0]));
        let rest = bytes.drop_first();
        assert forall|i: int| 0 <= i < rest.len() implies rest[i] != 37 by {
            assert(bytes.contains(bytes[i + 1]));
        }
        lemma_plain_bytes(rest);
        assert(seq![bytes[0]] + rest =~= bytes);
    } else {
        assert(bytes =~= seq![]);
    }
}

/// A segment without `%` stands for itself.
pub proof fn law_plain_segments_stand_for_themselves(text: Seq<char>)
    requires
        !encode_utf8(text).contains(37),
    ensures
        percent_decoded(text) == Some(text),
{
    lemma_plain_bytes(encode_utf8(text));
    vstd::utf8::encode_utf8_valid_utf8(text);
    vstd::utf8::encode_utf8_decode_utf8(text);
}

/// A byte may be written as `%` and its two digits: what it stands for is the same, so that a
/// name is guarded however it is written.
pub proof fn law_an_escape_stands_for_its_byte(byte: u8, a: u8, b: u8, rest: Seq<u8>)
    requires
        pair_value(a, b) == Some(byte as int),
    ensures
        percent_bytes(seq![37u8, a, b] + rest) == followed(seq![byte], percent_bytes(rest)),
        byte != 37 ==> percent_bytes(seq![37u8, a, b] + rest) == percent_bytes(seq![byte] + rest),
{
    let long = seq![37u8, a, b] + rest;
    assert(long.skip(3) =~= rest);
    let short = seq![byte] + rest;
    assert(short.drop_first() =~= rest);
}

} // verus!

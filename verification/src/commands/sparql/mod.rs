//! SPARQL over the exported ontology, and the request shapes of the SPARQL
//! Protocol endpoint.

pub mod engine;
pub mod laws;

pub use engine::{run, Engine, FORMATS};

use vstd::prelude::*;
use vstd::string::*;
use vstd::utf8::*;

use crate::commands::source_check::urls::{
    encoded, encoded_byte, is_unreserved, percent_encoded, upper_digit,
};
use crate::text::{
    ascii_lower_text, char_texts, chars_of, contains, find, first_of, has, head, lower_chars,
    opt_str, opt_text, same, same_chars, split_chars, split_on, starts, starts_with, tail, text_of,
    trim, trimmed,
};

verus! {

// ---------------------------------------------------------------------------
// Form encoding
// ---------------------------------------------------------------------------

/// The value of a hexadecimal digit.
pub open spec fn hex_value(b: u8) -> Option<int> {
    if 48 <= b <= 57 {
        Some(b - 48)
    } else if 65 <= b <= 70 {
        Some(b - 55)
    } else if 97 <= b <= 102 {
        Some(b - 87)
    } else {
        None
    }
}

/// The number that two hexadecimal digits write.
pub open spec fn hex_pair(x: u8, y: u8) -> Option<int> {
    match (hex_value(x), hex_value(y)) {
        (Some(a), Some(b)) => Some(16 * a + b),
        _ => None,
    }
}

/// The bytes that a form-encoded value stands for: `+` is a space, `%` and two
/// hexadecimal digits are a byte, and anything else is itself.
pub open spec fn form_decoded(bytes: Seq<u8>) -> Seq<u8>
    decreases bytes.len(),
{
    if bytes.len() == 0 {
        Seq::empty()
    } else if bytes[0] == 43 {
        seq![32u8] + form_decoded(bytes.skip(1))
    } else if bytes[0] == 37 && bytes.len() > 2 && hex_pair(bytes[1], bytes[2]) is Some {
        seq![hex_pair(bytes[1], bytes[2])->Some_0 as u8] + form_decoded(bytes.skip(3))
    } else {
        seq![bytes[0]] + form_decoded(bytes.skip(1))
    }
}

/// The text that bytes make up, with what is not UTF-8 replaced.
pub uninterp spec fn lossy_text(bytes: Seq<u8>) -> Seq<char>;

/// The text that bytes make up.
///
/// `String::from_utf8_lossy`, which depends on the bytes alone and gives the
/// text that they encode when they are UTF-8.
#[verifier::external_body]
fn from_lossy(bytes: &[u8]) -> (r: String)
    ensures
        r@ == lossy_text(bytes@),
        valid_utf8(bytes@) ==> r@ == decode_utf8(bytes@),
{
    String::from_utf8_lossy(bytes).into_owned()
}

fn digit_value(b: u8) -> (r: Option<u8>)
    ensures
        r is Some <==> hex_value(b) is Some,
        r matches Some(v) ==> hex_value(b) == Some(v as int) && v < 16,
{
    if 48 <= b && b <= 57 {
        Some(b - 48)
    } else if 65 <= b && b <= 70 {
        Some(b - 55)
    } else if 97 <= b && b <= 102 {
        Some(b - 87)
    } else {
        None
    }
}

fn pair_value(x: u8, y: u8) -> (r: Option<u8>)
    ensures
        r is Some <==> hex_pair(x, y) is Some,
        r matches Some(v) ==> hex_pair(x, y) == Some(v as int),
{
    match digit_value(y) {
        None => None,
        Some(b) => match digit_value(x) {
            Some(a) => Some(16 * a + b),
            None => None,
        },
    }
}

fn decode_bytes(bytes: &[u8]) -> (r: Vec<u8>)
    ensures
        r@ == form_decoded(bytes@),
{
    let mut r: Vec<u8> = Vec::new();
    let mut i: usize = 0;
    let total: usize = bytes.len();
    assert(bytes@.skip(0) == bytes@);
    while i < total
        invariant
            i <= total,
            total == bytes@.len(),
            r@ + form_decoded(bytes@.skip(i as int)) == form_decoded(bytes@),
        decreases total - i,
    {
        let ghost rest = bytes@.skip(i as int);
        let ghost was = r@;
        assert(rest[0] == bytes@[i as int]);
        assert(rest.skip(1) =~= bytes@.skip(i + 1));
        let b: u8 = bytes[i];
        let mut step: usize = 1;
        let mut out: u8 = b;
        if b == 43 {
            out = 32;
        } else if b == 37 && total - i > 2 {
            assert(rest[1] == bytes@[i + 1] && rest[2] == bytes@[i + 2]);
            assert(rest.skip(3) =~= bytes@.skip(i + 3));
            if let Some(v) = pair_value(bytes[i + 1], bytes[i + 2]) {
                out = v;
                step = 3;
            }
        }
        r.push(out);
        assert(r@ + form_decoded(bytes@.skip(i + step)) =~= was + form_decoded(rest));
        i = i + step;
    }
    assert(bytes@.skip(total as int) =~= Seq::<u8>::empty());
    assert(r@ + form_decoded(bytes@.skip(total as int)) =~= r@);
    r
}

/// The text that a form-encoded value stands for.
pub open spec fn decoded_text(value: Seq<char>) -> Seq<char> {
    lossy_text(form_decoded(encode_utf8(value)))
}

/// Decode a percent-encoded query-string value (`+` is a space).
pub fn url_decode(value: &str) -> (r: String)
    ensures
        r@ == decoded_text(value@),
        valid_utf8(form_decoded(encode_utf8(value@))) ==> r@ == decode_utf8(
            form_decoded(encode_utf8(value@)),
        ),
{
    let bytes = decode_bytes(value.as_bytes());
    from_lossy(bytes.as_slice())
}

/// The value of the first of a list of `key=value` pairs with a key; parts
/// without `=` are no pairs.
pub open spec fn pair_for(parts: Seq<Seq<char>>, name: Seq<char>) -> Option<Seq<char>>
    decreases parts.len(),
{
    if parts.len() == 0 {
        None
    } else {
        match first_of(parts[0], "="@) {
            Some(i) => if parts[0].take(i) == name {
                Some(parts[0].skip(i + 1))
            } else {
                pair_for(parts.skip(1), name)
            },
            None => pair_for(parts.skip(1), name),
        }
    }
}

/// The value of a parameter as it is encoded.
pub open spec fn raw_value(form: Seq<char>, name: Seq<char>) -> Option<Seq<char>> {
    pair_for(split_on(form, '&'), name)
}

/// The value of a parameter.
pub open spec fn param(form: Seq<char>, name: Seq<char>) -> Option<Seq<char>> {
    match raw_value(form, name) {
        Some(value) => Some(decoded_text(value)),
        None => None,
    }
}

/// Pull one parameter out of an `application/x-www-form-urlencoded` body or
/// query string, as it is encoded.
pub fn raw_param(form: &str, name: &str) -> (r: Option<String>)
    ensures
        opt_text(r) == raw_value(form@, name@),
{
    let cs = chars_of(form);
    let key = chars_of(name);
    let parts = split_chars(cs.as_slice(), '&');
    let ghost all = char_texts(parts@);
    proof {
        reveal_strlit("=");
    }
    assert(all.skip(0) == all);
    for i in 0..parts.len()
        invariant
            all == char_texts(parts@),
            key@ == name@,
            "="@.len() == 1,
            all == split_on(form@, '&'),
            pair_for(all, name@) == pair_for(all.skip(i as int), name@),
    {
        assert(all.skip(i as int)[0] == parts@[i as int]@);
        assert(all.skip(i as int).skip(1) == all.skip(i + 1));
        let part = parts[i].as_slice();
        if let Some(at) = find(part, "=") {
            if same_chars(head(part, at), key.as_slice()) {
                let value = tail(tail(part, at), 1);
                assert(value@ =~= part@.skip(at + 1));
                return Some(text_of(value));
            }
        }
    }
    assert(all.skip(parts@.len() as int) =~= Seq::<Seq<char>>::empty());
    None
}

/// Pull one parameter out of an `application/x-www-form-urlencoded` body or
/// query string.
pub fn form_param(form: &str, name: &str) -> (r: Option<String>)
    ensures
        opt_text(r) == param(form@, name@),
{
    match raw_param(form, name) {
        Some(value) => Some(url_decode(value.as_str())),
        None => None,
    }
}

// ---------------------------------------------------------------------------
// Requests
// ---------------------------------------------------------------------------

/// The result format for an `Accept` header.
pub open spec fn accepted_format(accept: Option<Seq<char>>) -> Seq<char> {
    let header = ascii_lower_text(
        match accept {
            Some(a) => a,
            None => ""@,
        },
    );
    if has(header, "text/csv"@) {
        "csv"@
    } else if has(header, "text/tab-separated-values"@) {
        "tsv"@
    } else if has(header, "sparql-results+xml"@) || has(header, "application/xml"@) {
        "xml"@
    } else {
        "json"@
    }
}

/// Map an HTTP `Accept` header to a result format name.
pub fn format_for_accept(accept: Option<&str>) -> (r: &'static str)
    ensures
        r@ == accepted_format(opt_str(accept)),
{
    let text = match accept {
        Some(a) => a,
        None => "",
    };
    let cs = chars_of(text);
    let header = lower_chars(cs.as_slice());
    let h = header.as_slice();
    if contains(h, "text/csv") {
        "csv"
    } else if contains(h, "text/tab-separated-values") {
        "tsv"
    } else if contains(h, "sparql-results+xml") || contains(h, "application/xml") {
        "xml"
    } else {
        "json"
    }
}

/// The path of a request URL.
pub open spec fn url_path(url: Seq<char>) -> Seq<char> {
    match first_of(url, "?"@) {
        Some(i) => url.take(i),
        None => url,
    }
}

/// The query string of a request URL.
pub open spec fn url_query(url: Seq<char>) -> Seq<char> {
    match first_of(url, "?"@) {
        Some(i) => url.skip(i + 1),
        None => ""@,
    }
}

/// The query that a request carries, if any.
pub open spec fn carried_query(
    method: Seq<char>,
    url: Seq<char>,
    content_type: Option<Seq<char>>,
    body: Seq<char>,
) -> Option<Seq<char>> {
    if method == "GET"@ {
        param(url_query(url), "query"@)
    } else if starts(
        ascii_lower_text(
            match content_type {
                Some(t) => t,
                None => ""@,
            },
        ),
        "application/x-www-form-urlencoded"@,
    ) {
        param(body, "query"@)
    } else {
        Some(body)
    }
}

/// The message for a path that is not the endpoint.
pub const NOT_FOUND: &'static str = "not found: the endpoint is /sparql";

/// The message for a method that is not `GET` or `POST`.
pub const BAD_METHOD: &'static str = "method not allowed: use GET or POST";

/// The message for a request without a query.
pub const NO_QUERY: &'static str =
    "bad request: no SPARQL query (GET ?query=… or POST the query)";

/// The query of a request, or the message to answer it with.
pub open spec fn requested_query(
    method: Seq<char>,
    url: Seq<char>,
    content_type: Option<Seq<char>>,
    body: Seq<char>,
) -> Result<Seq<char>, Seq<char>> {
    if url_path(url) != "/sparql"@ && url_path(url) != "/"@ {
        Err(NOT_FOUND@)
    } else if method != "GET"@ && method != "POST"@ {
        Err(BAD_METHOD@)
    } else {
        match carried_query(method, url, content_type, body) {
            Some(q) => if trim(q).len() > 0 {
                Ok(q)
            } else {
                Err(NO_QUERY@)
            },
            None => Err(NO_QUERY@),
        }
    }
}

/// The SPARQL Protocol request shapes, reduced to the query text:
/// `GET /sparql?query=…`, `POST` with `application/sparql-query`, or `POST`
/// with a form body carrying `query=`.
pub fn query_from_request(
    method: &str,
    url: &str,
    content_type: Option<&str>,
    body: &str,
) -> (r: Result<String, &'static str>)
    ensures
        match r {
            Ok(q) => requested_query(method@, url@, opt_str(content_type), body@) == Ok::<
                Seq<char>,
                Seq<char>,
            >(q@),
            Err(e) => requested_query(method@, url@, opt_str(content_type), body@) == Err::<
                Seq<char>,
                Seq<char>,
            >(e@),
        },
{
    let cs = chars_of(url);
    proof {
        reveal_strlit("?");
    }
    let (path, query_string) = match find(cs.as_slice(), "?") {
        Some(i) => {
            let rest = tail(tail(cs.as_slice(), i), 1);
            assert(rest@ =~= cs@.skip(i + 1));
            (text_of(head(cs.as_slice(), i)), text_of(rest))
        },
        None => (url.to_string(), "".to_string()),
    };
    if !same(path.as_str(), "/sparql") && !same(path.as_str(), "/") {
        return Err(NOT_FOUND);
    }
    let query = if same(method, "GET") {
        form_param(query_string.as_str(), "query")
    } else if same(method, "POST") {
        let kind = match content_type {
            Some(t) => t,
            None => "",
        };
        let letters = chars_of(kind);
        let lowered = lower_chars(letters.as_slice());
        proof {
            reveal_strlit("GET");
            reveal_strlit("POST");
            assert("GET"@.len() == 3 && "POST"@.len() == 4);
        }
        if starts_with(lowered.as_slice(), "application/x-www-form-urlencoded") {
            form_param(body, "query")
        } else {
            Some(body.to_string())
        }
    } else {
        return Err(BAD_METHOD);
    };
    match query {
        Some(q) => {
            let letters = chars_of(q.as_str());
            if trimmed(letters.as_slice()).len() > 0 {
                Ok(q)
            } else {
                Err(NO_QUERY)
            }
        },
        None => Err(NO_QUERY),
    }
}

/// The HTTP status for a message.
pub open spec fn status_of(message: Seq<char>) -> u16 {
    if starts(message, "not found"@) {
        404
    } else if starts(message, "method"@) {
        405
    } else {
        400
    }
}

/// The HTTP status of an answer with an error message.
pub fn error_status(message: &str) -> (r: u16)
    ensures
        r == status_of(message@),
{
    let cs = chars_of(message);
    if starts_with(cs.as_slice(), "not found") {
        404
    } else if starts_with(cs.as_slice(), "method") {
        405
    } else {
        400
    }
}

// ---------------------------------------------------------------------------
// Laws
// ---------------------------------------------------------------------------

/// The characters of a URL as bytes.
spec fn as_bytes(s: Seq<char>) -> Seq<u8> {
    Seq::new(s.len(), |i: int| s[i] as u8)
}

proof fn lemma_encoded_front(b: u8, rest: Seq<u8>)
    ensures
        encoded(seq![b] + rest) == encoded_byte(b) + encoded(rest),
    decreases rest.len(),
{
    let all = seq![b] + rest;
    if rest.len() == 0 {
        assert(all.drop_last() =~= Seq::<u8>::empty());
        assert(encoded(all.drop_last()) =~= Seq::<char>::empty());
        assert(encoded(rest) =~= Seq::<char>::empty());
        assert(encoded(all) =~= encoded_byte(b) + encoded(rest));
    } else {
        assert(all.drop_last() =~= seq![b] + rest.drop_last());
        lemma_encoded_front(b, rest.drop_last());
        assert(encoded(all) =~= encoded_byte(b) + encoded(rest));
    }
}

proof fn lemma_encoded_byte(b: u8)
    ensures
        forall|i: int|
            0 <= i < encoded_byte(b).len() ==> 0 <= (#[trigger] encoded_byte(b)[i] as int) < 128,
{
    assert(0 <= b as int / 16 < 16 && 0 <= b as int % 16 < 16);
}

proof fn lemma_encoded_ascii(bytes: Seq<u8>)
    ensures
        forall|i: int|
            0 <= i < encoded(bytes).len() ==> 0 <= (#[trigger] encoded(bytes)[i] as int) < 128,
    decreases bytes.len(),
{
    if bytes.len() > 0 {
        let front = encoded(bytes.drop_last());
        let last = encoded_byte(bytes.last());
        lemma_encoded_ascii(bytes.drop_last());
        lemma_encoded_byte(bytes.last());
        assert forall|i: int| 0 <= i < encoded(bytes).len() implies 0 <= (#[trigger] encoded(
            bytes,
        )[i] as int) < 128 by {
            if i < front.len() {
                assert(encoded(bytes)[i] == front[i]);
            } else {
                assert(encoded(bytes)[i] == last[i - front.len()]);
            }
        }
    }
}

proof fn lemma_decodes_byte(b: u8, rest: Seq<u8>)
    ensures
        form_decoded(as_bytes(encoded_byte(b)) + rest) == seq![b] + form_decoded(rest),
{
    let first = as_bytes(encoded_byte(b));
    let all = first + rest;
    if is_unreserved(b) {
        assert(first =~= seq![b]);
        assert(all.skip(1) =~= rest);
        assert(all[0] == b);
    } else {
        let hi = b as int / 16;
        let lo = b as int % 16;
        assert(0 <= hi < 16 && 0 <= lo < 16 && b as int == 16 * hi + lo);
        assert(first =~= seq![37u8, upper_digit(hi) as u8, upper_digit(lo) as u8]);
        assert(all[0] == 37 && all[1] == upper_digit(hi) as u8 && all[2] == upper_digit(lo) as u8);
        assert(hex_value(all[1]) == Some(hi));
        assert(hex_value(all[2]) == Some(lo));
        assert(all.skip(3) =~= rest);
    }
}

proof fn lemma_decodes(bytes: Seq<u8>)
    ensures
        form_decoded(as_bytes(encoded(bytes))) == bytes,
    decreases bytes.len(),
{
    if bytes.len() == 0 {
        assert(as_bytes(encoded(bytes)) =~= Seq::<u8>::empty());
    } else {
        let rest = bytes.skip(1);
        assert(bytes =~= seq![bytes[0]] + rest);
        lemma_encoded_front(bytes[0], rest);
        lemma_decodes(rest);
        lemma_decodes_byte(bytes[0], as_bytes(encoded(rest)));
        assert(as_bytes(encoded(bytes)) =~= as_bytes(encoded_byte(bytes[0])) + as_bytes(
            encoded(rest),
        ));
    }
}

/// What was percent-encoded is decoded again: decoding undoes encoding on
/// every text.
pub proof fn decoding_undoes_encoding(s: Seq<char>)
    ensures
        form_decoded(encode_utf8(percent_encoded(s))) == encode_utf8(s),
        valid_utf8(form_decoded(encode_utf8(percent_encoded(s)))),
        decode_utf8(form_decoded(encode_utf8(percent_encoded(s)))) == s,
{
    let bytes = encode_utf8(s);
    let text = percent_encoded(s);
    lemma_encoded_ascii(bytes);
    assert forall|i: int| 0 <= i < text.len() implies '\0' <= #[trigger] text[i] <= '\u{7f}' by {
        assert(0 <= (encoded(bytes)[i] as int) < 128);
    }
    is_ascii_chars_encode_utf8(text);
    assert(encode_utf8(text) =~= as_bytes(text));
    lemma_decodes(bytes);
    encode_utf8_valid_utf8(s);
    encode_utf8_decode_utf8(s);
}

}

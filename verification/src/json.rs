//! JSON texts: what the library writes and what it reads in them.

use vstd::prelude::*;
use vstd::string::*;

use crate::number::{decimal, decimal_text, digit_char};
use crate::text::{opt_text, texts};

verus! {

// ---------------------------------------------------------------------------
// Writing
// ---------------------------------------------------------------------------

/// A character inside a JSON string.
pub open spec fn json_escape(c: char) -> Seq<char> {
    if c == '"' {
        seq!['\\', '"']
    } else if c == '\\' {
        seq!['\\', '\\']
    } else if c == '\u{8}' {
        seq!['\\', 'b']
    } else if c == '\t' {
        seq!['\\', 't']
    } else if c == '\n' {
        seq!['\\', 'n']
    } else if c == '\u{c}' {
        seq!['\\', 'f']
    } else if c == '\r' {
        seq!['\\', 'r']
    } else if (c as int) < 32 {
        seq![
            '\\',
            'u',
            '0',
            '0',
            digit_char(c as int / 16),
            digit_char(c as int % 16),
        ]
    } else {
        seq![c]
    }
}

/// The characters of a text inside a JSON string.
pub open spec fn json_escaped(s: Seq<char>) -> Seq<char>
    decreases s.len(),
{
    if s.len() == 0 {
        Seq::empty()
    } else {
        json_escape(s[0]) + json_escaped(s.skip(1))
    }
}

/// A text as a JSON string.
pub open spec fn json_quoted(s: Seq<char>) -> Seq<char> {
    seq!['"'] + json_escaped(s) + seq!['"']
}

/// A text as a JSON string.
///
/// `serde_json::to_string` of a string: the text between quotation marks, with
/// quotation marks, backslashes and the control characters below U+0020
/// escaped and every other character as it is.
#[verifier::external_body]
pub(crate) fn quote_json(s: &str) -> (r: String)
    ensures
        r@ == json_quoted(s@),
{
    serde_json::to_string(s).unwrap()
}

/// A JSON value.
#[derive(Debug)]
pub enum Json {
    Number(u64),
    Text(String),
    List(Vec<Json>),
    /// The members in the order in which they are written.
    Object(Vec<(String, Json)>),
}

/// What a JSON value is.
pub enum JsonModel {
    Number(nat),
    Text(Seq<char>),
    List(Seq<JsonModel>),
    Object(Seq<(Seq<char>, JsonModel)>),
}

impl View for Json {
    type V = JsonModel;

    open spec fn view(&self) -> JsonModel {
        json_model(*self)
    }
}

/// What a JSON value is.
pub open spec fn json_model(j: Json) -> JsonModel
    decreases j,
{
    match j {
        Json::Number(n) => JsonModel::Number(n as nat),
        Json::Text(s) => JsonModel::Text(s@),
        Json::List(list) => JsonModel::List(
            Seq::new(
                list@.len(),
                |i: int|
                    if 0 <= i < list@.len() {
                        json_model(list@[i])
                    } else {
                        JsonModel::Number(0)
                    },
            ),
        ),
        Json::Object(members) => JsonModel::Object(
            Seq::new(
                members@.len(),
                |i: int|
                    if 0 <= i < members@.len() {
                        (members@[i].0@, json_model(members@[i].1))
                    } else {
                        (Seq::empty(), JsonModel::Number(0))
                    },
            ),
        ),
    }
}

/// A string.
pub fn json_string(s: &str) -> (r: Json)
    ensures
        r@ == JsonModel::Text(s@),
{
    Json::Text(s.to_string())
}

/// A number.
pub fn json_number(n: u64) -> (r: Json)
    ensures
        r@ == JsonModel::Number(n as nat),
{
    Json::Number(n)
}

/// A JSON value in text, without white space.
pub open spec fn json_written(j: JsonModel) -> Seq<char>
    decreases j,
{
    match j {
        JsonModel::Number(n) => decimal(n),
        JsonModel::Text(s) => json_quoted(s),
        JsonModel::List(list) => seq!['['] + list_written(list) + seq![']'],
        JsonModel::Object(members) => seq!['{'] + members_written(members) + seq!['}'],
    }
}

/// The values of a list in text, with commas between.
pub open spec fn list_written(list: Seq<JsonModel>) -> Seq<char>
    decreases list,
{
    if list.len() == 0 {
        Seq::empty()
    } else if list.len() == 1 {
        json_written(list[0])
    } else {
        list_written(list.drop_last()) + seq![','] + json_written(list.last())
    }
}

/// The members of an object in text, with commas between.
pub open spec fn members_written(members: Seq<(Seq<char>, JsonModel)>) -> Seq<char>
    decreases members,
{
    if members.len() == 0 {
        Seq::empty()
    } else if members.len() == 1 {
        json_quoted(members[0].0) + seq![':'] + json_written(members[0].1)
    } else {
        members_written(members.drop_last()) + seq![','] + (json_quoted(members.last().0)
            + seq![':'] + json_written(members.last().1))
    }
}

/// A JSON value in text, without white space.
pub fn write_json(j: &Json) -> (r: String)
    ensures
        r@ == json_written(j@),
    decreases *j,
{
    match j {
        Json::Number(n) => decimal_text(*n),
        Json::Text(s) => quote_json(s.as_str()),
        Json::List(list) => {
            let ghost model = j@->List_0;
            let mut body = String::new();
            for i in 0..list.len()
                invariant
                    j@ == JsonModel::List(model),
                    *j == Json::List(*list),
                    model.len() == list@.len(),
                    forall|k: int| 0 <= k < list@.len() ==> #[trigger] model[k] == list@[k]@,
                    body@ == list_written(model.take(i as int)),
            {
                assert(decreases_to!(*j => list@[i as int]));
                let item = write_json(&list[i]);
                assert(model.take(i + 1).drop_last() == model.take(i as int));
                if i > 0 {
                    body.push(',');
                }
                body.append(item.as_str());
            }
            assert(model.take(list@.len() as int) == model);
            let mut r = String::new();
            r.push('[');
            r.append(body.as_str());
            r.push(']');
            r
        },
        Json::Object(members) => {
            let ghost model = j@->Object_0;
            let mut body = String::new();
            for i in 0..members.len()
                invariant
                    j@ == JsonModel::Object(model),
                    *j == Json::Object(*members),
                    model.len() == members@.len(),
                    forall|k: int|
                        0 <= k < members@.len() ==> #[trigger] model[k] == (
                            members@[k].0@,
                            members@[k].1@,
                        ),
                    body@ == members_written(model.take(i as int)),
            {
                assert(decreases_to!(*j => members@[i as int].1));
                let mut item = quote_json(members[i].0.as_str());
                item.push(':');
                item.append(write_json(&members[i].1).as_str());
                assert(model.take(i + 1).drop_last() == model.take(i as int));
                if i > 0 {
                    body.push(',');
                }
                body.append(item.as_str());
            }
            assert(model.take(members@.len() as int) == model);
            let mut r = String::new();
            r.push('{');
            r.append(body.as_str());
            r.push('}');
            r
        },
    }
}

/// The escapes of two characters begin differently unless the characters are
/// the same.
proof fn lemma_escape_apart(a: char, b: char, x: Seq<char>, y: Seq<char>)
    requires
        json_escape(a) + x == json_escape(b) + y,
    ensures
        a == b,
        x == y,
{
    let ea = json_escape(a);
    let eb = json_escape(b);
    let sa = ea + x;
    let sb = eb + y;
    assert(sa[0] == ea[0] && sb[0] == eb[0]);
    if ea.len() > 1 && eb.len() > 1 {
        assert(sa[1] == ea[1] && sb[1] == eb[1]);
        if ea.len() == 6 && eb.len() == 6 {
            assert(sa[4] == ea[4] && sb[4] == eb[4]);
            assert(sa[5] == ea[5] && sb[5] == eb[5]);
            assert(a as int / 16 == b as int / 16);
            assert(a as int % 16 == b as int % 16);
        }
    }
    assert(a == b);
    assert(x =~= sa.skip(ea.len() as int));
    assert(y =~= sb.skip(eb.len() as int));
}

proof fn lemma_escaped_prefix(a: Seq<char>, b: Seq<char>, x: Seq<char>, y: Seq<char>)
    requires
        json_escaped(a) + (seq!['"'] + x) == json_escaped(b) + (seq!['"'] + y),
    ensures
        a == b,
        x == y,
    decreases a.len(),
{
    let sa = json_escaped(a) + (seq!['"'] + x);
    let sb = json_escaped(b) + (seq!['"'] + y);
    if a.len() == 0 {
        assert(sa[0] == '"');
        if b.len() > 0 {
            assert(sb[0] == json_escape(b[0])[0]);
        }
        assert(a =~= b);
        assert(x =~= sa.skip(1));
        assert(y =~= sb.skip(1));
    } else if b.len() == 0 {
        assert(sb[0] == '"');
        assert(sa[0] == json_escape(a[0])[0]);
    } else {
        let ra = json_escaped(a.skip(1)) + (seq!['"'] + x);
        let rb = json_escaped(b.skip(1)) + (seq!['"'] + y);
        assert(sa =~= json_escape(a[0]) + ra);
        assert(sb =~= json_escape(b[0]) + rb);
        lemma_escape_apart(a[0], b[0], ra, rb);
        lemma_escaped_prefix(a.skip(1), b.skip(1), x, y);
        assert(a =~= seq![a[0]] + a.skip(1));
        assert(b =~= seq![b[0]] + b.skip(1));
    }
}

/// A JSON string ends where it ends: two texts that begin with one and are
/// the same begin with the same one.
pub proof fn lemma_quoted_prefix(a: Seq<char>, b: Seq<char>, x: Seq<char>, y: Seq<char>)
    requires
        json_quoted(a) + x == json_quoted(b) + y,
    ensures
        a == b,
        x == y,
{
    let sa = json_quoted(a) + x;
    let sb = json_quoted(b) + y;
    assert(sa.skip(1) =~= json_escaped(a) + (seq!['"'] + x));
    assert(sb.skip(1) =~= json_escaped(b) + (seq!['"'] + y));
    lemma_escaped_prefix(a, b, x, y);
}

/// No two texts are the same JSON string.
pub proof fn json_strings_tell_texts_apart(a: Seq<char>, b: Seq<char>)
    requires
        json_quoted(a) == json_quoted(b),
    ensures
        a == b,
{
    assert(json_quoted(a) + Seq::<char>::empty() =~= json_quoted(a));
    assert(json_quoted(b) + Seq::<char>::empty() =~= json_quoted(b));
    lemma_quoted_prefix(a, b, Seq::empty(), Seq::empty());
}

/// A list in text from its first value on.
pub proof fn lemma_list_front(list: Seq<JsonModel>)
    requires
        list.len() > 1,
    ensures
        list_written(list) == json_written(list[0]) + (seq![','] + list_written(list.skip(1))),
    decreases list.len(),
{
    let front = list.drop_last();
    let rest = list.skip(1);
    if list.len() == 2 {
        reveal_with_fuel(list_written, 3);
        assert(front =~= seq![list[0]] && rest =~= seq![list[1]]);
        assert(list_written(rest) == json_written(list[1]));
        assert(list_written(front) == json_written(list[0]));
        assert(list_written(list) =~= json_written(list[0]) + (seq![','] + json_written(list[1])));
    } else {
        lemma_list_front(front);
        assert(front.skip(1) =~= rest.drop_last());
        assert(rest.last() == list.last());
        assert(list_written(list) =~= json_written(list[0]) + (seq![','] + list_written(rest)));
    }
}

proof fn lemma_grouped(
    a: Seq<char>,
    b: Seq<char>,
    c: Seq<char>,
    d: Seq<char>,
    e: Seq<char>,
    x: Seq<char>,
)
    ensures
        a + b + c + d + e + x == a + (b + (c + (d + (e + x)))),
        a + (b + (c + (d + e))) + x == a + (b + (c + (d + (e + x)))),
{
    assert(a + b + c + d + e + x =~= a + (b + (c + (d + (e + x)))));
    assert(a + (b + (c + (d + e))) + x =~= a + (b + (c + (d + (e + x)))));
}

proof fn lemma_last_two(a: Seq<char>, b: Seq<char>, c: Seq<char>)
    ensures
        a + b + c == a + (b + c),
{
    assert(a + b + c =~= a + (b + c));
}

/// The members of an object in text from the first on, with what follows.
pub proof fn lemma_members_front(members: Seq<(Seq<char>, JsonModel)>, x: Seq<char>)
    requires
        members.len() > 1,
    ensures
        members_written(members) + x == json_quoted(members[0].0) + (seq![':'] + (json_written(
            members[0].1,
        ) + (seq![','] + (members_written(members.skip(1)) + x)))),
    decreases members.len(),
{
    let front = members.drop_last();
    let rest = members.skip(1);
    let m0 = members[0];
    let l = members.last();
    let colon = seq![':'];
    let comma = seq![','];
    let last_text = json_quoted(l.0) + colon + json_written(l.1);
    let q = json_quoted(m0.0);
    let w = json_written(m0.1);
    assert(members_written(members) == members_written(front) + comma + last_text);
    if members.len() == 2 {
        assert(front[0] == m0 && rest[0] == l);
        assert(members_written(rest) == last_text);
        assert(members_written(front) == q + colon + w);
        lemma_grouped(q, colon, w, comma, last_text, x);
    } else {
        lemma_members_front(front, comma + last_text);
        assert(front[0] == m0);
        let middle = members_written(front.skip(1));
        assert(front.skip(1) =~= rest.drop_last());
        assert(rest.last() == l);
        assert(members_written(rest) == middle + comma + last_text);
        lemma_last_two(middle, comma, last_text);
        lemma_last_two(members_written(front), comma, last_text);
        lemma_grouped(q, colon, w, comma, middle + (comma + last_text), x);
    }
}

/// The one member of an object in text, with what follows.
pub proof fn lemma_member_alone(members: Seq<(Seq<char>, JsonModel)>, x: Seq<char>)
    requires
        members.len() == 1,
    ensures
        members_written(members) + x == json_quoted(members[0].0) + (seq![':'] + (json_written(
            members[0].1,
        ) + x)),
{
    assert(members_written(members) + x =~= json_quoted(members[0].0) + (seq![':'] + (json_written(
        members[0].1,
    ) + x)));
}

// ---------------------------------------------------------------------------
// Reading
// ---------------------------------------------------------------------------

/// Why a text is not JSON; nothing when it is.
pub uninterp spec fn json_fault(text: Seq<char>) -> Option<Seq<char>>;

/// The truth value at a pointer into a JSON text.
pub uninterp spec fn json_bool_at(text: Seq<char>, pointer: Seq<char>) -> Option<bool>;

/// The string at a pointer into a JSON text.
pub uninterp spec fn json_text_at(text: Seq<char>, pointer: Seq<char>) -> Option<Seq<char>>;

/// The number of values in the array at a pointer into a JSON text.
pub uninterp spec fn json_length_at(text: Seq<char>, pointer: Seq<char>) -> Option<nat>;

/// The rows of strings that a JSON text holds.
pub uninterp spec fn json_rows(text: Seq<char>) -> Option<Seq<Seq<Seq<char>>>>;

/// Why a text is not JSON.
///
/// The error of `serde_json::from_str`, in words; it depends on the text
/// alone.
#[verifier::external_body]
pub(crate) fn json_error(text: &str) -> (r: Option<String>)
    ensures
        opt_text(r) == json_fault(text@),
{
    serde_json::from_str::<serde_json::Value>(text).err().map(|e| e.to_string())
}

/// The truth value at a pointer (`/member/member`) into a JSON text, when
/// there is one.
///
/// `serde_json::from_str`, then `Value::pointer` and `Value::as_bool`.
#[verifier::external_body]
pub(crate) fn read_bool(text: &str, pointer: &str) -> (r: Option<bool>)
    ensures
        r == json_bool_at(text@, pointer@),
{
    serde_json::from_str::<serde_json::Value>(text).ok()?.pointer(pointer)?.as_bool()
}

/// The string at a pointer into a JSON text, when there is one.
///
/// `serde_json::from_str`, then `Value::pointer` and `Value::as_str`.
#[verifier::external_body]
pub(crate) fn read_text(text: &str, pointer: &str) -> (r: Option<String>)
    ensures
        opt_text(r) == json_text_at(text@, pointer@),
{
    let value = serde_json::from_str::<serde_json::Value>(text).ok()?;
    Some(value.pointer(pointer)?.as_str()?.to_string())
}

/// The number of values in the array at a pointer into a JSON text, when
/// there is one.
///
/// `serde_json::from_str`, then `Value::pointer` and `Value::as_array`.
#[verifier::external_body]
pub(crate) fn read_length(text: &str, pointer: &str) -> (r: Option<usize>)
    ensures
        r is Some <==> json_length_at(text@, pointer@) is Some,
        r matches Some(n) ==> json_length_at(text@, pointer@) == Some(n as nat),
{
    let value = serde_json::from_str::<serde_json::Value>(text).ok()?;
    Some(value.pointer(pointer)?.as_array()?.len())
}

/// What a list of rows of strings holds.
pub open spec fn rows_model(rows: Seq<Vec<String>>) -> Seq<Seq<Seq<char>>> {
    Seq::new(rows.len(), |i: int| texts(rows[i]@))
}

/// The rows of strings that a JSON text holds, when it holds such rows.
///
/// `serde_json::from_str` into a list of lists of strings.
#[verifier::external_body]
pub(crate) fn read_rows(text: &str) -> (r: Option<Vec<Vec<String>>>)
    ensures
        r is Some <==> json_rows(text@) is Some,
        r matches Some(rows) ==> json_rows(text@) == Some(rows_model(rows@)),
{
    serde_json::from_str(text).ok()
}

}

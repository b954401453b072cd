//! What holds of values written as JSON.

use vstd::prelude::*;

use crate::json::{
    json_escape, json_escaped, json_quoted, json_written, list_written, members_written, JsonModel,
};
use crate::number::{decimal, digit_char};

verus! {

/// The value of a hexadecimal digit in lower case.
pub open spec fn hex_digit_value(c: char) -> int {
    if '0' <= c && c <= '9' {
        c as int - 48
    } else {
        c as int - 87
    }
}

/// The character that a letter after a backslash stands for.
pub open spec fn escaped_char(c: char) -> char {
    if c == 'b' {
        '\u{8}'
    } else if c == 'f' {
        '\u{c}'
    } else if c == 'n' {
        '\u{a}'
    } else if c == 'r' {
        '\u{d}'
    } else if c == 't' {
        '\u{9}'
    } else {
        c
    }
}

/// The text that the characters inside a JSON string stand for: a backslash
/// and `u` with four hexadecimal digits are the character of that number, a
/// backslash and a letter what the letter stands for.
pub open spec fn string_value(s: Seq<char>) -> Seq<char>
    decreases s.len(),
{
    if s.len() == 0 {
        Seq::empty()
    } else if s[0] == '\\' && s.len() >= 6 && s[1] == 'u' {
        seq![
            (4096 * hex_digit_value(s[2]) + 256 * hex_digit_value(s[3]) + 16 * hex_digit_value(s[4])
                + hex_digit_value(s[5])) as char,
        ] + string_value(s.skip(6))
    } else if s[0] == '\\' && s.len() >= 2 {
        seq![escaped_char(s[1])] + string_value(s.skip(2))
    } else {
        seq![s[0]] + string_value(s.skip(1))
    }
}

proof fn lemma_escape_value(c: char, rest: Seq<char>)
    ensures
        string_value(json_escape(c) + rest) == seq![c] + string_value(rest),
{
    let e = json_escape(c);
    let s = e + rest;
    if c == '"' || c == '\\' || c == '\u{8}' || c == '\t' || c == '\n' || c == '\u{c}' || c
        == '\r' {
        assert(s.skip(2) =~= rest);
        assert(s[0] == '\\' && s[1] == e[1]);
        assert(s[1] != 'u');
        assert(escaped_char(s[1]) == c);
    } else if (c as int) < 32 {
        let high = c as int / 16;
        let low = c as int % 16;
        assert(high == 0 || high == 1);
        assert(s.skip(6) =~= rest);
        assert(s[1] == 'u' && s[2] == '0' && s[3] == '0');
        assert(s[4] == digit_char(high) && s[5] == digit_char(low));
        assert(hex_digit_value(s[4]) == high);
        assert(hex_digit_value(s[5]) == low);
        assert((16 * high + low) as char == c);
    } else {
        assert(s.skip(1) =~= rest);
        assert(s[0] == c);
    }
}

/// A JSON string stands between quotation marks and reads back as the text it
/// was written for.
pub proof fn a_json_string_reads_back(text: Seq<char>)
    ensures
        ({
            let s = json_quoted(text);
            &&& s.len() >= 2 && s[0] == '"' && s.last() == '"'
            &&& string_value(s.subrange(1, s.len() - 1)) == text
        }),
{
    let s = json_quoted(text);
    assert(s.subrange(1, s.len() - 1) =~= json_escaped(text));
    lemma_reads_back(text);
}

proof fn lemma_reads_back(text: Seq<char>)
    ensures
        string_value(json_escaped(text)) == text,
    decreases text.len(),
{
    if text.len() > 0 {
        lemma_reads_back(text.skip(1));
        lemma_escape_value(text[0], json_escaped(text.skip(1)));
        assert(seq![text[0]] + text.skip(1) =~= text);
    } else {
        assert(text =~= Seq::<char>::empty());
    }
}

proof fn lemma_escape_chars(c: char, i: int)
    requires
        0 <= i < json_escape(c).len(),
    ensures
        json_escape(c)[i] as int >= 32,
        json_escape(c)[i] == '"' ==> i > 0 && json_escape(c)[i - 1] == '\\',
{
    let code = c as int;
    if code < 32 {
        assert(code / 16 == 0 || code / 16 == 1);
        assert(0 <= code % 16 < 16);
        assert(digit_char(code / 16) as int >= 48);
        assert(digit_char(code % 16) as int >= 48);
    }
}

/// Inside a JSON string no quotation mark stands but behind a backslash, and
/// no control character at all.
pub proof fn a_json_string_holds_no_control_character(text: Seq<char>, i: int)
    requires
        0 <= i < json_escaped(text).len(),
    ensures
        json_escaped(text)[i] as int >= 32,
        json_escaped(text)[i] == '"' ==> i > 0 && json_escaped(text)[i - 1] == '\\',
    decreases text.len(),
{
    let first = json_escape(text[0]);
    let rest = json_escaped(text.skip(1));
    let all = json_escaped(text);
    if i < first.len() {
        assert(all[i] == first[i]);
        if i > 0 {
            assert(all[i - 1] == first[i - 1]);
        }
        lemma_escape_chars(text[0], i);
    } else {
        a_json_string_holds_no_control_character(text.skip(1), i - first.len());
        assert(all[i] == rest[i - first.len()]);
        if i > first.len() {
            assert(all[i - 1] == rest[i - 1 - first.len()]);
        }
    }
}

/// Values are written by their kind: a number in decimal, a text as a string,
/// a list between brackets and an object between braces, with a comma before
/// each further value or member, and a member as its name, a colon and its
/// value.
pub proof fn values_are_written_by_their_kind(
    n: nat,
    text: Seq<char>,
    list: Seq<JsonModel>,
    members: Seq<(Seq<char>, JsonModel)>,
    name: Seq<char>,
    value: JsonModel,
)
    ensures
        json_written(JsonModel::Number(n)) == decimal(n),
        json_written(JsonModel::Text(text)) == json_quoted(text),
        json_written(JsonModel::List(Seq::empty())) == seq!['[', ']'],
        json_written(JsonModel::List(seq![value])) == seq!['['] + json_written(value) + seq![']'],
        list.len() > 0 ==> json_written(JsonModel::List(list.push(value))) == json_written(
            JsonModel::List(list),
        ).drop_last() + seq![','] + json_written(value) + seq![']'],
        json_written(JsonModel::Object(Seq::empty())) == seq!['{', '}'],
        json_written(JsonModel::Object(seq![(name, value)])) == seq!['{'] + json_quoted(name)
            + seq![':'] + json_written(value) + seq!['}'],
        members.len() > 0 ==> json_written(JsonModel::Object(members.push((name, value))))
            == json_written(JsonModel::Object(members)).drop_last() + seq![','] + json_quoted(name)
            + seq![':'] + json_written(value) + seq!['}'],
{
    assert(seq!['['] + Seq::<char>::empty() + seq![']'] =~= seq!['[', ']']);
    assert(seq!['{'] + Seq::<char>::empty() + seq!['}'] =~= seq!['{', '}']);
    assert(seq![value][0] == value);
    assert(list_written(seq![value]) == json_written(value));
    assert(seq![(name, value)][0] == (name, value));
    let member = json_quoted(name) + seq![':'] + json_written(value);
    assert(members_written(seq![(name, value)]) == member);
    assert(seq!['{'] + member + seq!['}'] =~= seq!['{'] + json_quoted(name) + seq![':']
        + json_written(value) + seq!['}']);
    if list.len() > 0 {
        assert(list.push(value).drop_last() =~= list);
        let front = json_written(JsonModel::List(list));
        assert(front.drop_last() =~= seq!['['] + list_written(list));
        assert(seq!['['] + (list_written(list) + seq![','] + json_written(value)) + seq![']']
            =~= seq!['['] + list_written(list) + seq![','] + json_written(value) + seq![']']);
    }
    if members.len() > 0 {
        assert(members.push((name, value)).drop_last() =~= members);
        let front = json_written(JsonModel::Object(members));
        assert(front.drop_last() =~= seq!['{'] + members_written(members));
        assert(seq!['{'] + (members_written(members) + seq![','] + member) + seq!['}'] =~= seq!['{']
            + members_written(members) + seq![','] + json_quoted(name) + seq![':'] + json_written(
            value,
        ) + seq!['}']);
    }
}

}

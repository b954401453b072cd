//! What holds of queries, requests and results.

use vstd::prelude::*;
use vstd::utf8::*;

use crate::commands::export::statements::{prefix_line, the_turtle_declares_its_prefixes};
use crate::commands::export::turtle::turtle;
use crate::commands::export::GraphModel;
use crate::commands::source_check::urls::{
    encoded, encoded_byte, is_unreserved, percent_encoded, upper_digit,
};
use crate::commands::sparql::engine::{
    cells, export_prefixes, may_come_to, message_response, missing_prefixes, named_prefixes, outcome, prefixed,
    rendered, result_response, row_lines, solutions_text, AnswerModel, OutputModel, ReplyModel,
    ResponseModel,
};
use crate::commands::sparql::{
    accepted_format, decoding_undoes_encoding, form_decoded, lossy_text, param, raw_value,
    requested_query,
};
use crate::order::lemma_contains_last;
use crate::text::{
    ascii_lower_text, ends, first_of, has, join, lemma_first_of, lemma_has_more, lemma_has_part,
    lemma_until, split_on, starts, trim, until,
};

verus! {

// ---------------------------------------------------------------------------
// Prefixes
// ---------------------------------------------------------------------------

/// The prefixes that an export is queried with are those of its document:
/// each named one stands in the document, declared for the same IRI. They are
/// the standard namespaces under their usual names, the vocabulary as `xl` and
/// the base IRI under the empty name.
pub proof fn queries_and_the_document_share_their_prefixes(g: GraphModel)
    ensures
        forall|i: int|
            0 <= i < export_prefixes(g).len() && (#[trigger] export_prefixes(g)[i]).0.len() > 0
                ==> has(
                turtle(g),
                "@prefix "@ + export_prefixes(g)[i].0 + ": <"@ + export_prefixes(g)[i].1
                    + "> .\n"@,
            ),
        export_prefixes(g).len() == 6,
        export_prefixes(g).contains(("skos"@, "http://www.w3.org/2004/02/skos/core#"@)),
        export_prefixes(g).contains(("rdfs"@, "http://www.w3.org/2000/01/rdf-schema#"@)),
        export_prefixes(g).contains(("dcterms"@, "http://purl.org/dc/terms/"@)),
        export_prefixes(g).contains(("xsd"@, "http://www.w3.org/2001/XMLSchema#"@)),
        export_prefixes(g).contains(("xl"@, g.vocab_iri)),
        export_prefixes(g).contains((""@, g.base_iri)),
{
    the_turtle_declares_its_prefixes(g);
    let list = export_prefixes(g);
    reveal_strlit("");
    assert forall|i: int| 0 <= i < list.len() && (#[trigger] list[i]).0.len() > 0 implies has(
        turtle(g),
        "@prefix "@ + list[i].0 + ": <"@ + list[i].1 + "> .\n"@,
    ) by {
        assert(has(turtle(g), prefix_line(list[i].0, list[i].1))) by {
            if i == 0 {
            } else if i == 1 {
            } else if i == 2 {
            } else if i == 3 {
            } else if i == 4 {
            } else {
                assert(list[5].0.len() == 0);
            }
        }
    }
    assert(list[0] == ("skos"@, "http://www.w3.org/2004/02/skos/core#"@));
    assert(list[1] == ("rdfs"@, "http://www.w3.org/2000/01/rdf-schema#"@));
    assert(list[2] == ("dcterms"@, "http://purl.org/dc/terms/"@));
    assert(list[3] == ("xsd"@, "http://www.w3.org/2001/XMLSchema#"@));
    assert(list[4] == ("xl"@, g.vocab_iri));
    assert(list[5] == (""@, g.base_iri));
}

/// The declaration of a prefix before a query.
pub open spec fn declaration(prefix: (Seq<char>, Seq<char>)) -> Seq<char> {
    "PREFIX "@ + prefix.0 + ": <"@ + prefix.1 + ">\n"@
}

proof fn lemma_missing(prefixes: Seq<(Seq<char>, Seq<char>)>, query: Seq<char>, n: nat, i: int)
    requires
        0 <= i < n <= prefixes.len(),
        !(has(ascii_lower_text(query), "prefix "@ + prefixes[i].0 + ":"@)),
    ensures
        has(missing_prefixes(prefixes, query, n), declaration(prefixes[i])),
    decreases n,
{
    let none = Seq::<char>::empty();
    let front = missing_prefixes(prefixes, query, (n - 1) as nat);
    let d = declaration(prefixes[n - 1]);
    assert(front + "PREFIX "@ + prefixes[n - 1].0 + ": <"@ + prefixes[n - 1].1 + ">\n"@ =~= front
        + d + none);
    if i == n - 1 {
        lemma_has_part(front, d, none);
    } else {
        lemma_missing(prefixes, query, (n - 1) as nat, i);
        lemma_has_more(none, front, d, declaration(prefixes[i]));
        assert(none + front + d =~= front + d + none);
    }
}

/// A query keeps its text, and each prefix that it does not declare itself,
/// in whatever case, is declared before it.
pub proof fn an_undeclared_prefix_is_declared(
    prefixes: Seq<(Seq<char>, Seq<char>)>,
    query: Seq<char>,
    i: int,
)
    requires
        0 <= i < prefixes.len(),
        !(has(ascii_lower_text(query), "prefix "@ + prefixes[i].0 + ":"@)),
    ensures
        ends(prefixed(prefixes, query), query),
        has(
            prefixed(prefixes, query).take(prefixed(prefixes, query).len() - query.len()),
            "PREFIX "@ + prefixes[i].0 + ": <"@ + prefixes[i].1 + ">\n"@,
        ),
{
    let all = prefixed(prefixes, query);
    let front = missing_prefixes(prefixes, query, prefixes.len());
    lemma_missing(prefixes, query, prefixes.len(), i);
    assert(all.skip(all.len() - query.len()) =~= query);
    assert(all.take(all.len() - query.len()) =~= front);
}

/// A graph is written with the prefixes that have a name, and no other.
pub proof fn named_prefixes_are_kept(
    list: Seq<(Seq<char>, Seq<char>)>,
    p: (Seq<char>, Seq<char>),
)
    ensures
        named_prefixes(list).contains(p) <==> list.contains(p) && p.0.len() > 0,
    decreases list.len(),
{
    if list.len() > 0 {
        named_prefixes_are_kept(list.drop_last(), p);
        lemma_contains_last(list, p);
        let kept = named_prefixes(list);
        if list.last().0.len() > 0 {
            lemma_contains_last(kept, p);
            assert(kept.drop_last() =~= named_prefixes(list.drop_last()));
        }
    }
}

// ---------------------------------------------------------------------------
// Requests
// ---------------------------------------------------------------------------

proof fn lemma_encoded_chars(bytes: Seq<u8>)
    ensures
        forall|i: int|
            0 <= i < encoded(bytes).len() ==> (#[trigger] encoded(bytes)[i]) != '&' && encoded(
                bytes,
            )[i] != '?',
    decreases bytes.len(),
{
    if bytes.len() > 0 {
        let front = encoded(bytes.drop_last());
        let b = bytes.last();
        let last = encoded_byte(b);
        lemma_encoded_chars(bytes.drop_last());
        assert(0 <= b as int / 16 < 16 && 0 <= b as int % 16 < 16);
        assert forall|i: int| 0 <= i < encoded(bytes).len() implies (#[trigger] encoded(
            bytes,
        )[i]) != '&' && encoded(bytes)[i] != '?' by {
            if i < front.len() {
                assert(encoded(bytes)[i] == front[i]);
            } else {
                assert(encoded(bytes)[i] == last[i - front.len()]);
                if is_unreserved(b) {
                    assert(last[0] == b as char);
                    assert(b as char as int == b as int);
                } else {
                    let hi = upper_digit(b as int / 16);
                    let lo = upper_digit(b as int % 16);
                    assert(48 <= hi as int <= 70 && hi as int != 63);
                    assert(48 <= lo as int <= 70 && lo as int != 63);
                }
            }
        }
    }
}

proof fn lemma_unsplit(s: Seq<char>, c: char)
    requires
        forall|i: int| 0 <= i < s.len() ==> s[i] != c,
    ensures
        split_on(s, c) == seq![s],
{
    lemma_until(s, c);
    if until(s, c) < s.len() {
        assert(s[until(s, c) as int] == c);
    }
}

proof fn lemma_first_char(a: Seq<char>, c: char, b: Seq<char>)
    requires
        forall|i: int| 0 <= i < a.len() ==> a[i] != c,
    ensures
        first_of(a + seq![c] + b, seq![c]) == Some(a.len() as int),
    decreases a.len(),
{
    let s = a + seq![c] + b;
    let p = seq![c];
    if a.len() == 0 {
        assert(s.take(1) =~= p);
    } else {
        assert(s.take(1)[0] == a[0]);
        assert(!starts(s, p));
        let rest = a.skip(1);
        assert(s.skip(1) =~= rest + seq![c] + b);
        assert forall|i: int| 0 <= i < rest.len() implies rest[i] != c by {
            assert(rest[i] == a[i + 1]);
        }
        lemma_first_char(rest, c, b);
    }
}

/// The first pair of a form with a key gives its value: a pair stands between
/// ampersands, and its key before its first equals sign.
pub proof fn a_lone_pair_gives_its_value(name: Seq<char>, value: Seq<char>)
    requires
        forall|i: int| 0 <= i < name.len() ==> name[i] != '=' && name[i] != '&',
        forall|i: int| 0 <= i < value.len() ==> value[i] != '&',
    ensures
        raw_value(name + "="@ + value, name) == Some(value),
{
    let s = name + "="@ + value;
    reveal_strlit("=");
    assert("="@ =~= seq!['=']);
    assert forall|i: int| 0 <= i < s.len() implies s[i] != '&' by {
        if i < name.len() {
            assert(s[i] == name[i]);
        } else if i > name.len() {
            assert(s[i] == value[i - name.len() - 1]);
        }
    }
    lemma_unsplit(s, '&');
    lemma_first_char(name, '=', value);
    assert(s.take(name.len() as int) =~= name);
    assert(s.skip((name.len() + 1) as int) =~= value);
    assert(seq![s][0] == s);
}

/// A query that a client percent-encodes reaches the store as it was: in the
/// query string of a `GET` and in the form body of a `POST`. Any other `POST`
/// body is the query itself.
pub proof fn a_query_is_read_as_it_was_sent(
    query: Seq<char>,
    content_type: Option<Seq<char>>,
    body: Seq<char>,
)
    ensures
        trim(lossy_text(encode_utf8(query))).len() > 0 ==> requested_query(
            "GET"@,
            "/sparql?query="@ + percent_encoded(query),
            content_type,
            body,
        ) == Ok::<Seq<char>, Seq<char>>(lossy_text(encode_utf8(query))),
        trim(lossy_text(encode_utf8(query))).len() > 0 ==> (content_type matches Some(t) && starts(
            ascii_lower_text(t),
            "application/x-www-form-urlencoded"@,
        ) ==> requested_query(
            "POST"@,
            "/sparql"@,
            content_type,
            "query="@ + percent_encoded(query),
        ) == Ok::<Seq<char>, Seq<char>>(lossy_text(encode_utf8(query)))),
        trim(body).len() > 0 ==> (content_type matches Some(t) && !starts(
            ascii_lower_text(t),
            "application/x-www-form-urlencoded"@,
        ) ==> requested_query("POST"@, "/sparql"@, content_type, body) == Ok::<
            Seq<char>,
            Seq<char>,
        >(body)),
{
    let value = percent_encoded(query);
    let form = "query="@ + value;
    let path = "/sparql"@;
    let url = "/sparql?query="@ + value;
    reveal_strlit("query=");
    reveal_strlit("query");
    reveal_strlit("=");
    reveal_strlit("?");
    reveal_strlit("/sparql");
    reveal_strlit("/sparql?query=");
    reveal_strlit("GET");
    reveal_strlit("POST");
    assert("GET"@.len() == 3 && "POST"@.len() == 4);
    assert("?"@ =~= seq!['?']);
    lemma_encoded_chars(encode_utf8(query));
    assert(form =~= "query"@ + "="@ + value);
    a_lone_pair_gives_its_value("query"@, value);
    decoding_undoes_encoding(query);
    assert(param(form, "query"@) == Some(lossy_text(encode_utf8(query))));
    assert(url =~= path + seq!['?'] + form);
    lemma_first_char(path, '?', form);
    assert(url.take(path.len() as int) =~= path);
    assert(url.skip((path.len() + 1) as int) =~= form);
    lemma_first_of(path, "?"@);
    if first_of(path, "?"@) is Some {
        let i = first_of(path, "?"@)->Some_0;
        assert(path.skip(i).take(1)[0] == path[i]);
    }
}

/// A header asks for comma-separated values before anything else, then for
/// tab-separated ones, then for XML, whatever the case of its letters; without
/// any of these, and without a header, results are JSON.
pub proof fn a_header_picks_the_first_format_it_names(accept: Seq<char>)
    ensures
        ({
            let h = ascii_lower_text(accept);
            let csv = has(h, "text/csv"@);
            let tsv = has(h, "text/tab-separated-values"@);
            let xml = has(h, "sparql-results+xml"@) || has(h, "application/xml"@);
            &&& csv ==> accepted_format(Some(accept)) == "csv"@
            &&& !csv && tsv ==> accepted_format(Some(accept)) == "tsv"@
            &&& !csv && !tsv && xml ==> accepted_format(Some(accept)) == "xml"@
            &&& !csv && !tsv && !xml ==> accepted_format(Some(accept)) == "json"@
        }),
        accepted_format(None) == "json"@,
{
    let h = ascii_lower_text(""@);
    reveal_strlit("");
    assert(h.len() == 0);
    lemma_first_of(h, "text/csv"@);
    lemma_first_of(h, "text/tab-separated-values"@);
    lemma_first_of(h, "sparql-results+xml"@);
    lemma_first_of(h, "application/xml"@);
    reveal_strlit("text/csv");
    reveal_strlit("text/tab-separated-values");
    reveal_strlit("sparql-results+xml");
    reveal_strlit("application/xml");
}

// ---------------------------------------------------------------------------
// Results
// ---------------------------------------------------------------------------

/// Solutions as text: without any, the names of the variables; and each
/// further solution adds one line with its terms in order, an unbound variable
/// as an empty cell, parted by tabs.
pub proof fn each_solution_adds_a_line(
    variables: Seq<Seq<char>>,
    rows: Seq<Seq<Option<Seq<char>>>>,
    row: Seq<Option<Seq<char>>>,
)
    ensures
        solutions_text(variables, rows.push(row)) == solutions_text(variables, rows) + join(
            cells(row),
            "\t"@,
        ) + "\n"@,
        cells(row).len() == row.len(),
        forall|i: int|
            0 <= i < row.len() ==> #[trigger] cells(row)[i] == (match row[i] {
                Some(t) => t,
                None => Seq::empty(),
            }),
{
    let more = rows.push(row);
    lemma_rows_front(rows, more, rows.len());
    assert(more[rows.len() as int] == row);
    assert(solutions_text(variables, more) =~= solutions_text(variables, rows) + join(
        cells(row),
        "\t"@,
    ) + "\n"@);
}

proof fn lemma_rows_front(
    a: Seq<Seq<Option<Seq<char>>>>,
    b: Seq<Seq<Option<Seq<char>>>>,
    n: nat,
)
    requires
        n <= a.len(),
        n <= b.len(),
        forall|i: int| 0 <= i < n ==> a[i] == b[i],
    ensures
        row_lines(a, n) == row_lines(b, n),
    decreases n,
{
    if n > 0 {
        lemma_rows_front(a, b, (n - 1) as nat);
    }
}

/// Without solutions the text is a line of the names of the variables, each
/// without the question mark that a query writes it with.
pub proof fn the_first_line_names_the_variables(names: Seq<Seq<char>>)
    requires
        forall|i: int| 0 <= i < names.len() ==> !starts(#[trigger] names[i], "?"@),
    ensures
        solutions_text(
            Seq::new(names.len(), |i: int| "?"@ + names[i]),
            Seq::<Seq<Option<Seq<char>>>>::empty(),
        ) == join(names, "\t"@) + "\n"@,
        solutions_text(names, Seq::<Seq<Option<Seq<char>>>>::empty()) == join(names, "\t"@)
            + "\n"@,
{
    let marked = Seq::new(names.len(), |i: int| "?"@ + names[i]);
    let none = Seq::<Seq<Option<Seq<char>>>>::empty();
    reveal_strlit("?");
    assert forall|i: int| 0 <= i < names.len() implies #[trigger]
        crate::commands::sparql::engine::names_of(marked)[i] == names[i] by {
        assert(marked[i].take(1) =~= "?"@);
        assert(marked[i].skip(1) =~= names[i]);
    }
    assert(crate::commands::sparql::engine::names_of(marked) =~= names);
    assert(crate::commands::sparql::engine::names_of(names) =~= names);
    assert(row_lines(none, 0) =~= Seq::<char>::empty());
    assert(solutions_text(marked, none) =~= join(names, "\t"@) + "\n"@);
    assert(solutions_text(names, none) =~= join(names, "\t"@) + "\n"@);
}

/// A truth value as text is its word on a line; each format of results has
/// its own media type; and a result is answered with 200, a fault with 400.
pub proof fn results_carry_their_media_type(
    prefixes: Seq<(Seq<char>, Seq<char>)>,
    value: bool,
    fault: Seq<char>,
)
    ensures
        rendered(prefixes, "text"@, AnswerModel::Boolean(true)) == Ok::<OutputModel, Seq<char>>(
            OutputModel { body: encode_utf8("true"@ + "\n"@), media: "text/plain"@ },
        ),
        rendered(prefixes, "text"@, AnswerModel::Boolean(false)) == Ok::<OutputModel, Seq<char>>(
            OutputModel { body: encode_utf8("false"@ + "\n"@), media: "text/plain"@ },
        ),
        rendered(prefixes, "csv"@, AnswerModel::Boolean(value))->Ok_0.media == "text/csv"@,
        rendered(prefixes, "tsv"@, AnswerModel::Boolean(value))->Ok_0.media
            == "text/tab-separated-values"@,
        rendered(prefixes, "xml"@, AnswerModel::Boolean(value))->Ok_0.media
            == "application/sparql-results+xml"@,
        rendered(prefixes, "json"@, AnswerModel::Boolean(value))->Ok_0.media
            == "application/sparql-results+json"@,
        outcome(prefixes, "json"@, ReplyModel::Syntax(fault)) == Err::<OutputModel, Seq<char>>(
            "SPARQL syntax error: "@ + fault,
        ),
        outcome(prefixes, "json"@, ReplyModel::Failed(fault)) == Err::<OutputModel, Seq<char>>(
            "query failed: "@ + fault,
        ),
        result_response(Err(fault)) == message_response(400, fault),
        message_response(400, fault).media == "text/plain"@,
        message_response(400, fault).body == encode_utf8(fault),
        result_response(rendered(prefixes, "text"@, AnswerModel::Boolean(value))).status == 200,
{
    reveal_strlit("text");
    reveal_strlit("csv");
    reveal_strlit("tsv");
    reveal_strlit("xml");
    reveal_strlit("json");
    assert("text"@.len() == 4 && "json"@.len() == 4 && "csv"@.len() == 3);
    assert("text"@[0] != "json"@[0]);
    assert("csv"@[0] != "tsv"@[0] && "csv"@[0] != "xml"@[0] && "tsv"@[0] != "xml"@[0]);
}

// ---------------------------------------------------------------------------
// Answers and forms
// ---------------------------------------------------------------------------

/// A truth value is handed out as a word on a line, as a word, or as a
/// document of the format.
pub proof fn a_truth_value_is_handed_out(
    prefixes: Seq<(Seq<char>, Seq<char>)>,
    value: bool,
)
    ensures
        ({
            let word = if value {
                "true"@
            } else {
                "false"@
            };
            let answer = AnswerModel::Boolean(value);
            &&& rendered(prefixes, "text"@, answer) == Ok::<OutputModel, Seq<char>>(
                (OutputModel { body: encode_utf8(word + "\n"@), media: "text/plain"@ }),
            )
            &&& rendered(prefixes, "csv"@, answer) == Ok::<OutputModel, Seq<char>>(
                (OutputModel { body: encode_utf8(word), media: "text/csv"@ }),
            )
            &&& rendered(prefixes, "tsv"@, answer) == Ok::<OutputModel, Seq<char>>(
                (OutputModel { body: encode_utf8(word), media: "text/tab-separated-values"@ }),
            )
            &&& rendered(prefixes, "json"@, answer) == Ok::<OutputModel, Seq<char>>(
                (OutputModel {
                    body: encode_utf8("{\"head\":{},\"boolean\":"@ + word + "}"@),
                    media: "application/sparql-results+json"@,
                }),
            )
            &&& rendered(prefixes, "xml"@, answer) == Ok::<OutputModel, Seq<char>>(
                (OutputModel {
                    body: encode_utf8(
                        "<?xml version=\"1.0\"?><sparql xmlns=\"http://www.w3.org/2005/sparql-results#\"><head></head><boolean>"@
                            + word + "</boolean></sparql>"@,
                    ),
                    media: "application/sparql-results+xml"@,
                }),
            )
        }),
{
    reveal_strlit("text");
    reveal_strlit("csv");
    reveal_strlit("tsv");
    reveal_strlit("json");
    reveal_strlit("xml");
    reveal_strlit("text/csv");
    reveal_strlit("text/tab-separated-values");
    reveal_strlit("application/sparql-results+json");
    reveal_strlit("application/sparql-results+xml");
    assert("text"@.len() == 4 && "json"@.len() == 4 && "text"@[0] != "json"@[0]);
    assert("csv"@.len() == 3 && "tsv"@.len() == 3 && "xml"@.len() == 3);
    assert("csv"@[0] == 'c' && "tsv"@[0] == 't' && "xml"@[0] == 'x');
    assert("text/csv"@.len() == 8 && "text/tab-separated-values"@.len() == 25);
    assert("application/sparql-results+json"@.len() == 31);
    assert("application/sparql-results+xml"@.len() == 30);
}

/// A query that cannot be read or fails says so, and why; a message is plain
/// text with the status of a bad request, and a result has the status of
/// success.
pub proof fn a_failed_query_says_why(
    prefixes: Seq<(Seq<char>, Seq<char>)>,
    format: Seq<char>,
    e: Seq<char>,
    out: OutputModel,
)
    ensures
        outcome(prefixes, format, ReplyModel::Syntax(e)) == Err::<OutputModel, Seq<char>>(
            "SPARQL syntax error: "@ + e,
        ),
        outcome(prefixes, format, ReplyModel::Failed(e)) == Err::<OutputModel, Seq<char>>(
            "query failed: "@ + e,
        ),
        result_response(Err(e)) == (ResponseModel {
            status: 400,
            media: "text/plain"@,
            body: encode_utf8(e),
        }),
        result_response(Ok(out)) == (ResponseModel {
            status: 200,
            media: out.media,
            body: out.body,
        }),
{
}

/// In a form value a plus sign is a space, a percent sign with two
/// hexadecimal digits in either case is the byte that they write, and any
/// other byte is itself.
pub proof fn a_form_value_is_decoded_byte_by_byte(b: u8, rest: Seq<u8>)
    ensures
        form_decoded(Seq::empty()) == Seq::<u8>::empty(),
        form_decoded(seq![43u8] + rest) == seq![32u8] + form_decoded(rest),
        form_decoded(seq![37u8, upper_hex(b as int / 16), upper_hex(b as int % 16)] + rest) == seq![b]
            + form_decoded(rest),
        form_decoded(seq![37u8, lower_hex(b as int / 16), lower_hex(b as int % 16)] + rest) == seq![b]
            + form_decoded(rest),
        b != 43 && b != 37 ==> form_decoded(seq![b] + rest) == seq![b] + form_decoded(rest),
        rest.len() < 2 || !is_hex_digit(rest[0]) || !is_hex_digit(rest[1]) ==> form_decoded(
            seq![37u8] + rest,
        ) == seq![37u8] + form_decoded(rest),
{
    let one = seq![43u8] + rest;
    assert(one.skip(1) =~= rest);
    let plain = seq![b] + rest;
    assert(plain.skip(1) =~= rest);
    let percent = seq![37u8] + rest;
    assert(percent.skip(1) =~= rest);
    if percent.len() > 2 {
        assert(percent[1] == rest[0] && percent[2] == rest[1]);
    }
    let up = seq![37u8, upper_hex(b as int / 16), upper_hex(b as int % 16)] + rest;
    assert(up.skip(3) =~= rest);
    assert(up[1] == upper_hex(b as int / 16) && up[2] == upper_hex(b as int % 16));
    let low = seq![37u8, lower_hex(b as int / 16), lower_hex(b as int % 16)] + rest;
    assert(low.skip(3) =~= rest);
    assert(low[1] == lower_hex(b as int / 16) && low[2] == lower_hex(b as int % 16));
    assert(16 * (b as int / 16) + b as int % 16 == b);
}

/// The hexadecimal digit of a number below sixteen, in upper case.
pub open spec fn upper_hex(d: int) -> u8 {
    if d < 10 {
        (48 + d) as u8
    } else {
        (65 + d - 10) as u8
    }
}

/// The hexadecimal digit of a number below sixteen, in lower case.
pub open spec fn lower_hex(d: int) -> u8 {
    if d < 10 {
        (48 + d) as u8
    } else {
        (97 + d - 10) as u8
    }
}

/// A hexadecimal digit in either case.
pub open spec fn is_hex_digit(b: u8) -> bool {
    48 <= b <= 57 || 65 <= b <= 70 || 97 <= b <= 102
}

/// Of several pairs the first with the key counts.
pub proof fn the_first_pair_counts(
    other: Seq<char>,
    name: Seq<char>,
    value: Seq<char>,
    rest: Seq<char>,
)
    requires
        forall|i: int| 0 <= i < other.len() ==> other[i] != '=' && other[i] != '&',
        forall|i: int| 0 <= i < value.len() ==> value[i] != '&',
    ensures
        other == name ==> raw_value(other + "="@ + value + "&"@ + rest, name) == Some(value),
        other != name ==> raw_value(other + "="@ + value + "&"@ + rest, name) == raw_value(
            rest,
            name,
        ),
{
    let pair = other + "="@ + value;
    let s = pair + "&"@ + rest;
    reveal_strlit("=");
    reveal_strlit("&");
    assert("="@ =~= seq!['=']);
    assert forall|i: int| 0 <= i < pair.len() implies pair[i] != '&' by {
        if i < other.len() {
            assert(pair[i] == other[i]);
        } else if i > other.len() {
            assert(pair[i] == value[i - other.len() - 1]);
        }
    }
    lemma_until(s, '&');
    let n = until(s, '&') as int;
    assert(s[pair.len() as int] == '&');
    assert(n == pair.len()) by {
        if n < pair.len() {
            assert(s[n] == pair[n]);
        }
    }
    assert(s.take(n) =~= pair);
    assert(s.skip(n + 1) =~= rest);
    let parts = split_on(s, '&');
    assert(parts == seq![pair] + split_on(rest, '&'));
    assert(parts[0] == pair);
    assert(parts.skip(1) =~= split_on(rest, '&'));
    lemma_first_char(other, '=', value);
    assert(pair.take(other.len() as int) =~= other);
    assert(pair.skip((other.len() + 1) as int) =~= value);
}

/// A query is answered in five formats; any other is refused with its name
/// and theirs.
pub proof fn an_unknown_format_is_refused(
    documents: Seq<Seq<char>>,
    prefixes: Seq<(Seq<char>, Seq<char>)>,
    query: Seq<char>,
    format: Seq<char>,
    r: Result<OutputModel, Seq<char>>,
)
    requires
        format != "text"@,
        format != "json"@,
        format != "csv"@,
        format != "tsv"@,
        format != "xml"@,
    ensures
        may_come_to(documents, prefixes, query, format, r) <==> r == Err::<OutputModel, Seq<char>>(
            "Unknown result format '"@ + format + "' (expected one of "@
                + "text, json, csv, tsv, xml"@ + ")"@,
        ),
{
}

}

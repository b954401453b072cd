//! An in-memory store that holds the exported ontology and answers queries.
//!
//! The ontology is loaded through the export, so the graph is exactly what the
//! export prints.

use oxigraph::io::{RdfFormat, RdfParser, RdfSerializer};
use oxigraph::model::{Term, Triple, Variable};
use oxigraph::sparql::results::{QueryResultsFormat, QueryResultsSerializer};
use oxigraph::sparql::{QueryEvaluationError, QueryResults, QuerySolution, SparqlEvaluator};
use oxigraph::store::Store;
use vstd::prelude::*;
use vstd::string::*;
use vstd::utf8::*;

use crate::commands::export;
use crate::commands::export::turtle::turtle;
use crate::commands::export::{graph_of, to_turtle, GraphModel, DCTERMS, RDFS, SKOS, XSD};
use crate::commands::sparql::{
    accepted_format, error_status, format_for_accept, query_from_request, requested_query,
    status_of, BAD_METHOD, NOT_FOUND, NO_QUERY,
};
use crate::config::Config;
use crate::markdown::{files, NodeFile};
use crate::text::{
    ascii_lower_text, chars_of, contains, has, join, join_texts, lemma_push_text, lemma_take_next,
    lower_chars,
    opt_str, opt_text, same, starts, starts_with, tail, text_of, texts,
};

verus! {

/// Output formats for SELECT / ASK results. CONSTRUCT / DESCRIBE always
/// produce Turtle.
pub const FORMATS: &'static str = "text, json, csv, tsv, xml";

/// A format for results.
pub open spec fn is_format(format: Seq<char>) -> bool {
    ||| format == "text"@
    ||| format == "json"@
    ||| format == "csv"@
    ||| format == "tsv"@
    ||| format == "xml"@
}

/// Whether a format is one for results.
pub fn known_format(format: &str) -> (r: bool)
    ensures
        r == is_format(format@),
{
    same(format, "text") || same(format, "json") || same(format, "csv") || same(format, "tsv")
        || same(format, "xml")
}

// ---------------------------------------------------------------------------
// The store
// ---------------------------------------------------------------------------

/// The store of the `oxigraph` crate.
#[verifier::external_type_specification]
#[verifier::external_body]
pub struct ExStore(oxigraph::store::Store);

/// The results of a query of the `oxigraph` crate.
#[verifier::external_type_specification]
#[verifier::external_body]
pub struct ExQueryResults<'a>(oxigraph::sparql::QueryResults<'a>);

/// What a query gives.
#[derive(Debug)]
pub enum Answer {
    /// Of an `ASK` query.
    Boolean(bool),
    /// Of a `SELECT` query: the variables, and for each solution a term or
    /// nothing for each of them. Variables are written as in SPARQL and terms
    /// as in N-Triples.
    Solutions { variables: Vec<String>, rows: Vec<Vec<Option<String>>> },
    /// Of a `CONSTRUCT` or `DESCRIBE` query: triples, written as in N-Triples.
    Graph(Vec<String>),
}

/// What an answer says.
pub enum AnswerModel {
    Boolean(bool),
    Solutions { variables: Seq<Seq<char>>, rows: Seq<Seq<Option<Seq<char>>>> },
    Graph(Seq<Seq<char>>),
}

/// What a row says.
pub open spec fn row_of(row: Seq<Option<String>>) -> Seq<Option<Seq<char>>> {
    Seq::new(row.len(), |i: int| opt_text(row[i]))
}

/// What rows say.
pub open spec fn rows_of(rows: Seq<Vec<Option<String>>>) -> Seq<Seq<Option<Seq<char>>>> {
    Seq::new(rows.len(), |i: int| row_of(rows[i]@))
}

impl View for Answer {
    type V = AnswerModel;

    open spec fn view(&self) -> AnswerModel {
        match self {
            Answer::Boolean(value) => AnswerModel::Boolean(*value),
            Answer::Solutions { variables, rows } => AnswerModel::Solutions {
                variables: texts(variables@),
                rows: rows_of(rows@),
            },
            Answer::Graph(triples) => AnswerModel::Graph(texts(triples@)),
        }
    }
}

/// Why a query gave no answer.
#[derive(Debug)]
pub enum Fault {
    /// It is not SPARQL.
    Syntax(String),
    /// It could not be evaluated.
    Failed(String),
}

/// What a query gave.
pub enum ReplyModel {
    Answer(AnswerModel),
    Syntax(Seq<char>),
    Failed(Seq<char>),
}

/// What a query gave.
pub open spec fn reply_of(reply: Result<Answer, Fault>) -> ReplyModel {
    match reply {
        Ok(a) => ReplyModel::Answer(a@),
        Err(Fault::Syntax(e)) => ReplyModel::Syntax(e@),
        Err(Fault::Failed(e)) => ReplyModel::Failed(e@),
    }
}

/// The Turtle documents that a store was loaded with.
pub uninterp spec fn documents(store: Store) -> Seq<Seq<char>>;

/// What is wrong with a Turtle document.
pub uninterp spec fn turtle_fault(document: Seq<char>) -> Option<Seq<char>>;

/// What is wrong with the syntax of a query.
pub uninterp spec fn syntax_fault(query: Seq<char>) -> Option<Seq<char>>;

/// What evaluating a query over documents may give. A query can have more than
/// one outcome: solutions have no order unless it asks for one, and it can ask
/// for the time or a random number.
pub uninterp spec fn may_give(documents: Seq<Seq<char>>, query: Seq<char>, reply: ReplyModel) -> bool;

/// What the results of a query hold, to their end.
pub uninterp spec fn held(results: QueryResults<'static>) -> ReplyModel;

/// An empty store in memory.
///
/// `oxigraph::store::Store::new`, which makes no store but one in memory and
/// does not fail.
#[verifier::external_body]
fn new_store() -> (r: Result<Store, String>)
    ensures
        r is Ok,
        documents(r->Ok_0) == Seq::<Seq<char>>::empty(),
{
    Store::new().map_err(|e| e.to_string())
}

/// Load a Turtle document into a store.
///
/// `oxigraph::store::Store::load_from_slice`, with a parser for Turtle. It
/// fails exactly when the document is not Turtle, with an error that depends
/// on the document alone, and then leaves the store as it was.
#[verifier::external_body]
fn load_turtle(store: &mut Store, document: &str) -> (r: Result<(), String>)
    ensures
        match r {
            Ok(_) => turtle_fault(document@) is None && documents(*final(store)) == documents(
                *old(store),
            ).push(document@),
            Err(e) => turtle_fault(document@) == Some(e@) && documents(*final(store)) == documents(
                *old(store),
            ),
        },
{
    let parser = RdfParser::from_format(RdfFormat::Turtle);
    store.load_from_slice(parser, document.as_bytes()).map_err(|e| e.to_string())
}

/// What is wrong with the syntax of a query.
///
/// `oxigraph::sparql::SparqlEvaluator::parse_query`, which fails on a query
/// that is not SPARQL, with an error that depends on the query alone.
#[verifier::external_body]
fn syntax_error(query: &str) -> (r: Option<String>)
    ensures
        opt_text(r) == syntax_fault(query@),
{
    SparqlEvaluator::new().parse_query(query).err().map(|e| e.to_string())
}

/// Begin to evaluate a query on a store.
///
/// `execute` of a query that `oxigraph::sparql::SparqlEvaluator::parse_query`
/// has read. The outcome is one of those that the query has on what the store
/// was loaded with.
#[verifier::external_body]
fn execute(store: &Store, query: &str) -> (r: Result<QueryResults<'static>, String>)
    requires
        syntax_fault(query@) is None,
    ensures
        may_give(
            documents(*store),
            query@,
            match r {
                Ok(results) => held(results),
                Err(e) => ReplyModel::Failed(e@),
            },
        ),
{
    let prepared = SparqlEvaluator::new().parse_query(query).unwrap();
    prepared.on_store(store).execute().map_err(|e| e.to_string())
}

/// Read the results of a query to their end.
///
/// The variants of `oxigraph::sparql::QueryResults`, with terms and triples
/// written by their `to_string`.
#[verifier::external_body]
fn read_results(results: QueryResults<'static>) -> (r: Result<Answer, String>)
    ensures
        held(results) == (match r {
            Ok(a) => ReplyModel::Answer(a@),
            Err(e) => ReplyModel::Failed(e@),
        }),
{
    let text = |e: QueryEvaluationError| e.to_string();
    match results {
        QueryResults::Boolean(value) => Ok(Answer::Boolean(value)),
        QueryResults::Solutions(all) => {
            let variables = all.variables().iter().map(ToString::to_string).collect();
            let mut rows = Vec::new();
            for s in all {
                let terms = s.map_err(text)?;
                rows.push(terms.values().iter().map(|t| t.as_ref().map(Term::to_string)).collect());
            }
            Ok(Answer::Solutions { variables, rows })
        }
        QueryResults::Graph(all) =>
            all.map(|t| t.map(|t| t.to_string()).map_err(text)).collect::<Result<_, _>>().map(Answer::Graph),
    }
}

fn reply(store: &Store, query: &str) -> (r: Result<Answer, Fault>)
    ensures
        may_reply(documents(*store), query@, reply_of(r)),
{
    if let Some(e) = syntax_error(query) {
        return Err(Fault::Syntax(e));
    }
    match execute(store, query) {
        Ok(results) => match read_results(results) {
            Ok(a) => Ok(a),
            Err(e) => Err(Fault::Failed(e)),
        },
        Err(e) => Err(Fault::Failed(e)),
    }
}

// ---------------------------------------------------------------------------
// Results
// ---------------------------------------------------------------------------

/// The media type of a format other than `text`.
pub open spec fn media_of(format: Seq<char>) -> Seq<char> {
    if format == "csv"@ {
        "text/csv"@
    } else if format == "tsv"@ {
        "text/tab-separated-values"@
    } else if format == "xml"@ {
        "application/sparql-results+xml"@
    } else {
        "application/sparql-results+json"@
    }
}

/// A media type for results.
pub open spec fn is_media(media: Seq<char>) -> bool {
    ||| media == "text/csv"@
    ||| media == "text/tab-separated-values"@
    ||| media == "application/sparql-results+xml"@
    ||| media == "application/sparql-results+json"@
}

/// The media type of a format other than `text`.
pub fn results_media(format: &str) -> (r: &'static str)
    ensures
        r@ == media_of(format@),
        is_media(r@),
{
    if same(format, "csv") {
        "text/csv"
    } else if same(format, "tsv") {
        "text/tab-separated-values"
    } else if same(format, "xml") {
        "application/sparql-results+xml"
    } else {
        "application/sparql-results+json"
    }
}

/// The words of the truth values.
pub open spec fn truth(value: bool) -> Seq<char> {
    if value {
        "true"@
    } else {
        "false"@
    }
}

/// A truth value as a media type has it.
pub open spec fn boolean_text(media: Seq<char>, value: bool) -> Seq<char> {
    if media == "application/sparql-results+json"@ {
        "{\"head\":{},\"boolean\":"@ + truth(value) + "}"@
    } else if media == "application/sparql-results+xml"@ {
        "<?xml version=\"1.0\"?><sparql xmlns=\"http://www.w3.org/2005/sparql-results#\"><head></head><boolean>"@
            + truth(value) + "</boolean></sparql>"@
    } else {
        truth(value)
    }
}

/// Solutions as a media type has them, or what is wrong with them.
pub uninterp spec fn solutions_bytes(
    media: Seq<char>,
    variables: Seq<Seq<char>>,
    rows: Seq<Seq<Option<Seq<char>>>>,
) -> Result<Seq<u8>, Seq<char>>;

/// Why a graph could not be written.
#[derive(Debug)]
pub enum GraphFault {
    /// The IRI of a prefix is none: the IRI, and what is wrong with it.
    Prefix(String, String),
    /// A triple is none: what is wrong with it.
    Triple(String),
}

/// Why a graph could not be written.
pub enum GraphFaultModel {
    Prefix(Seq<char>, Seq<char>),
    Triple(Seq<char>),
}

impl View for GraphFault {
    type V = GraphFaultModel;

    open spec fn view(&self) -> GraphFaultModel {
        match self {
            GraphFault::Prefix(iri, e) => GraphFaultModel::Prefix(iri@, e@),
            GraphFault::Triple(e) => GraphFaultModel::Triple(e@),
        }
    }
}

/// Triples in Turtle with prefixes declared, or what is wrong with them.
pub uninterp spec fn graph_bytes(
    prefixes: Seq<(Seq<char>, Seq<char>)>,
    triples: Seq<Seq<char>>,
) -> Result<Seq<u8>, GraphFaultModel>;

/// What prefixes say: the name and the IRI of each.
pub open spec fn prefixes_of(list: Seq<(String, String)>) -> Seq<(Seq<char>, Seq<char>)> {
    Seq::new(list.len(), |i: int| (list[i].0@, list[i].1@))
}

/// Write a truth value.
///
/// `oxigraph::sparql::results::QueryResultsSerializer::serialize_boolean_to_writer`
/// on bytes in memory, which does not fail.
#[verifier::external_body]
fn write_boolean(media: &str, value: bool) -> (r: Result<Vec<u8>, String>)
    requires
        is_media(media@),
    ensures
        r is Ok,
        r->Ok_0@ == encode_utf8(boolean_text(media@, value)),
{
    let format = QueryResultsFormat::from_media_type(media).unwrap();
    let serializer = QueryResultsSerializer::from_format(format);
    serializer.serialize_boolean_to_writer(Vec::new(), value).map_err(|e| e.to_string())
}

/// Write solutions.
///
/// `oxigraph::sparql::results::QueryResultsSerializer::serialize_solutions_to_writer`
/// on bytes in memory. The result depends on the media type, the variables and
/// the terms alone; it is an error when a text is no variable or no term.
#[verifier::external_body]
fn write_solutions(media: &str, variables: &Vec<String>, rows: &Vec<Vec<Option<String>>>) -> (r:
    Result<Vec<u8>, String>)
    requires
        is_media(media@),
    ensures
        match r {
            Ok(bytes) => solutions_bytes(media@, texts(variables@), rows_of(rows@)) == Ok::<
                Seq<u8>,
                Seq<char>,
            >(bytes@),
            Err(e) => solutions_bytes(media@, texts(variables@), rows_of(rows@)) == Err::<
                Seq<u8>,
                Seq<char>,
            >(e@),
        },
{
    let run = || -> Result<Vec<u8>, Box<dyn std::error::Error>> {
        let mut names = Vec::new();
        for v in variables {
            names.push(v.parse::<Variable>()?);
        }
        let out = QueryResultsFormat::from_media_type(media).map(QueryResultsSerializer::from_format);
        let mut out = out.unwrap().serialize_solutions_to_writer(Vec::new(), names.clone())?;
        for row in rows {
            let mut terms = Vec::new();
            for t in row { terms.push(t.as_ref().map(|t| t.parse::<Term>()).transpose()?); }
            out.serialize(&QuerySolution::from((names.clone(), terms)))?;
        }
        Ok(out.finish()?)
    };
    run().map_err(|e| e.to_string())
}

/// Write triples in Turtle.
///
/// `oxigraph::io::RdfSerializer` for Turtle on bytes in memory, with prefixes
/// declared by `with_prefix`. The result depends on the prefixes and the
/// triples alone; it is an error when the IRI of a prefix is none or a text is
/// no triple.
#[verifier::external_body]
fn write_graph(prefixes: &Vec<(String, String)>, triples: &Vec<String>) -> (r: Result<
    Vec<u8>,
    GraphFault,
>)
    ensures
        match r {
            Ok(bytes) => graph_bytes(prefixes_of(prefixes@), texts(triples@)) == Ok::<
                Seq<u8>,
                GraphFaultModel,
            >(bytes@),
            Err(e) => graph_bytes(prefixes_of(prefixes@), texts(triples@)) == Err::<
                Seq<u8>,
                GraphFaultModel,
            >(e@),
        },
{
    let mut serializer = RdfSerializer::from_format(RdfFormat::Turtle);
    for (name, iri) in prefixes {
        let more = serializer.with_prefix(name, iri);
        serializer = more.map_err(|e| GraphFault::Prefix(iri.clone(), e.to_string()))?;
    }
    let mut out = serializer.for_writer(Vec::new());
    for triple in triples {
        let t = triple.parse::<Triple>().map_err(|e| GraphFault::Triple(e.to_string()))?;
        out.serialize_triple(&t).map_err(|e| GraphFault::Triple(e.to_string()))?;
    }
    out.finish().map_err(|e| GraphFault::Triple(e.to_string()))
}

/// Results as they are handed out.
#[derive(Debug)]
pub struct Output {
    pub body: Vec<u8>,
    pub media: &'static str,
}

/// What an output is.
pub struct OutputModel {
    pub body: Seq<u8>,
    pub media: Seq<char>,
}

impl View for Output {
    type V = OutputModel;

    open spec fn view(&self) -> OutputModel {
        OutputModel { body: self.body@, media: self.media@ }
    }
}

/// What a result is.
pub open spec fn outcome_of(r: Result<Output, String>) -> Result<OutputModel, Seq<char>> {
    match r {
        Ok(out) => Ok(out@),
        Err(e) => Err(e@),
    }
}

/// The cells of a row as text: a term, or nothing.
pub open spec fn cells(row: Seq<Option<Seq<char>>>) -> Seq<Seq<char>> {
    Seq::new(
        row.len(),
        |i: int|
            match row[i] {
                Some(t) => t,
                None => Seq::empty(),
            },
    )
}

/// The first `n` rows as text.
pub open spec fn row_lines(rows: Seq<Seq<Option<Seq<char>>>>, n: nat) -> Seq<char>
    decreases n,
{
    if n == 0 {
        Seq::empty()
    } else {
        row_lines(rows, (n - 1) as nat) + join(cells(rows[n - 1]), "\t"@) + "\n"@
    }
}

/// A variable without its mark.
pub open spec fn without_mark(v: Seq<char>) -> Seq<char> {
    if starts(v, "?"@) {
        v.skip(1)
    } else {
        v
    }
}

/// Variables without their marks.
pub open spec fn names_of(variables: Seq<Seq<char>>) -> Seq<Seq<char>> {
    Seq::new(variables.len(), |i: int| without_mark(variables[i]))
}

/// Solutions as text: the names of the variables, then a line for each
/// solution.
pub open spec fn solutions_text(
    variables: Seq<Seq<char>>,
    rows: Seq<Seq<Option<Seq<char>>>>,
) -> Seq<char> {
    join(names_of(variables), "\t"@) + "\n"@ + row_lines(rows, rows.len())
}

/// The prefixes that have a name.
pub open spec fn named_prefixes(list: Seq<(Seq<char>, Seq<char>)>) -> Seq<(Seq<char>, Seq<char>)>
    decreases list.len(),
{
    if list.len() == 0 {
        Seq::empty()
    } else if list.last().0.len() == 0 {
        named_prefixes(list.drop_last())
    } else {
        named_prefixes(list.drop_last()).push(list.last())
    }
}

/// An answer in a format, or why there is none.
pub open spec fn rendered(
    prefixes: Seq<(Seq<char>, Seq<char>)>,
    format: Seq<char>,
    answer: AnswerModel,
) -> Result<OutputModel, Seq<char>> {
    match answer {
        AnswerModel::Boolean(value) => if format == "text"@ {
            Ok(OutputModel { body: encode_utf8(truth(value) + "\n"@), media: "text/plain"@ })
        } else {
            Ok(
                OutputModel {
                    body: encode_utf8(boolean_text(media_of(format), value)),
                    media: media_of(format),
                },
            )
        },
        AnswerModel::Solutions { variables, rows } => if format == "text"@ {
            Ok(
                OutputModel {
                    body: encode_utf8(solutions_text(variables, rows)),
                    media: "text/plain"@,
                },
            )
        } else {
            match solutions_bytes(media_of(format), variables, rows) {
                Ok(body) => Ok(OutputModel { body, media: media_of(format) }),
                Err(e) => Err("write error: "@ + e),
            }
        },
        AnswerModel::Graph(triples) => match graph_bytes(named_prefixes(prefixes), triples) {
            Ok(body) => Ok(OutputModel { body, media: "text/turtle"@ }),
            Err(GraphFaultModel::Prefix(iri, e)) => Err("bad prefix IRI "@ + iri + ": "@ + e),
            Err(GraphFaultModel::Triple(e)) => Err("write error: "@ + e),
        },
    }
}

/// What is handed out for what a query gave.
pub open spec fn outcome(
    prefixes: Seq<(Seq<char>, Seq<char>)>,
    format: Seq<char>,
    reply: ReplyModel,
) -> Result<OutputModel, Seq<char>> {
    match reply {
        ReplyModel::Syntax(e) => Err("SPARQL syntax error: "@ + e),
        ReplyModel::Failed(e) => Err("query failed: "@ + e),
        ReplyModel::Answer(answer) => rendered(prefixes, format, answer),
    }
}

fn cells_of(row: &Vec<Option<String>>) -> (r: Vec<String>)
    ensures
        texts(r@) == cells(row_of(row@)),
{
    let ghost all = cells(row_of(row@));
    let mut r: Vec<String> = Vec::new();
    assert(texts(r@) =~= all.take(0));
    for i in 0..row.len()
        invariant
            all == cells(row_of(row@)),
            texts(r@) == all.take(i as int),
    {
        let cell = match &row[i] {
            Some(t) => t.clone(),
            None => String::new(),
        };
        proof {
            assert(cell@ =~= all[i as int]);
            lemma_push_text(r@, cell);
            lemma_take_next(all, i as int);
        }
        r.push(cell);
    }
    assert(all.take(row@.len() as int) == all);
    r
}

fn text_of_solutions(variables: &Vec<String>, rows: &Vec<Vec<Option<String>>>) -> (r: String)
    ensures
        r@ == solutions_text(texts(variables@), rows_of(rows@)),
{
    let mut names: Vec<String> = Vec::new();
    let ghost every = names_of(texts(variables@));
    proof {
        reveal_strlit("?");
    }
    assert(texts(names@) =~= every.take(0));
    for i in 0..variables.len()
        invariant
            "?"@.len() == 1,
            every == names_of(texts(variables@)),
            texts(names@) == every.take(i as int),
    {
        let cs = chars_of(variables[i].as_str());
        let name = if starts_with(cs.as_slice(), "?") {
            text_of(tail(cs.as_slice(), 1))
        } else {
            variables[i].clone()
        };
        proof {
            assert(name@ == every[i as int]);
            lemma_push_text(names@, name);
            lemma_take_next(every, i as int);
        }
        names.push(name);
    }
    assert(every.take(variables@.len() as int) == every);
    let mut r = join_texts(&names, "\t");
    r.append("\n");
    let ghost start = r@;
    let ghost all = rows_of(rows@);
    assert(start + row_lines(all, 0) =~= start);
    for i in 0..rows.len()
        invariant
            all == rows_of(rows@),
            r@ == start + row_lines(all, i as nat),
    {
        assert(all[i as int] == row_of(rows@[i as int]@));
        let cells = cells_of(&rows[i]);
        r.append(join_texts(&cells, "\t").as_str());
        r.append("\n");
        assert(r@ =~= start + row_lines(all, (i + 1) as nat));
    }
    assert(all.len() == rows@.len());
    r
}

fn with_names(prefixes: &Vec<(String, String)>) -> (r: Vec<(String, String)>)
    ensures
        prefixes_of(r@) == named_prefixes(prefixes_of(prefixes@)),
{
    let ghost all = prefixes_of(prefixes@);
    let mut r: Vec<(String, String)> = Vec::new();
    assert(prefixes_of(r@) =~= named_prefixes(all.take(0)));
    for i in 0..prefixes.len()
        invariant
            all == prefixes_of(prefixes@),
            prefixes_of(r@) == named_prefixes(all.take(i as int)),
    {
        assert(all.take(i + 1).drop_last() == all.take(i as int));
        assert(all.take(i + 1).last() == all[i as int]);
        if prefixes[i].0.as_str().unicode_len() > 0 {
            let ghost before = r@;
            let one = (prefixes[i].0.clone(), prefixes[i].1.clone());
            r.push(one);
            assert(prefixes_of(r@) =~= prefixes_of(before).push(all[i as int]));
        }
    }
    assert(all.take(prefixes@.len() as int) == all);
    r
}

fn text_output(text: String) -> (r: Output)
    ensures
        r@ == (OutputModel { body: encode_utf8(text@), media: "text/plain"@ }),
{
    Output { body: text.as_str().as_bytes_vec(), media: "text/plain" }
}

/// An answer in a format.
pub fn render(prefixes: &Vec<(String, String)>, format: &str, answer: &Answer) -> (r: Result<
    Output,
    String,
>)
    ensures
        outcome_of(r) == rendered(prefixes_of(prefixes@), format@, answer@),
{
    match answer {
        Answer::Boolean(value) => {
            if same(format, "text") {
                let mut text = if *value {
                    "true".to_string()
                } else {
                    "false".to_string()
                };
                text.append("\n");
                return Ok(text_output(text));
            }
            let media = results_media(format);
            match write_boolean(media, *value) {
                Ok(body) => Ok(Output { body, media }),
                Err(e) => Err(e),
            }
        },
        Answer::Solutions { variables, rows } => {
            if same(format, "text") {
                return Ok(text_output(text_of_solutions(variables, rows)));
            }
            let media = results_media(format);
            match write_solutions(media, variables, rows) {
                Ok(body) => Ok(Output { body, media }),
                Err(e) => {
                    let mut m = "write error: ".to_string();
                    m.append(e.as_str());
                    Err(m)
                },
            }
        },
        Answer::Graph(triples) => {
            let named = with_names(prefixes);
            match write_graph(&named, triples) {
                Ok(body) => Ok(Output { body, media: "text/turtle" }),
                Err(GraphFault::Prefix(iri, e)) => {
                    let mut m = "bad prefix IRI ".to_string();
                    m.append(iri.as_str());
                    m.append(": ");
                    m.append(e.as_str());
                    Err(m)
                },
                Err(GraphFault::Triple(e)) => {
                    let mut m = "write error: ".to_string();
                    m.append(e.as_str());
                    Err(m)
                },
            }
        },
    }
}

/// What is handed out for what a query gave.
pub fn render_reply(
    prefixes: &Vec<(String, String)>,
    format: &str,
    reply: &Result<Answer, Fault>,
) -> (r: Result<Output, String>)
    ensures
        outcome_of(r) == outcome(prefixes_of(prefixes@), format@, reply_of(*reply)),
{
    match reply {
        Ok(answer) => render(prefixes, format, answer),
        Err(Fault::Syntax(e)) => {
            let mut m = "SPARQL syntax error: ".to_string();
            m.append(e.as_str());
            Err(m)
        },
        Err(Fault::Failed(e)) => {
            let mut m = "query failed: ".to_string();
            m.append(e.as_str());
            Err(m)
        },
    }
}

// ---------------------------------------------------------------------------
// The engine
// ---------------------------------------------------------------------------

/// An in-memory store holding the exported ontology.
pub struct Engine {
    pub store: Store,
    /// `(prefix, iri)` pairs declared for every query unless the query
    /// declares the prefix itself. `""` is the base IRI (`:entity`).
    pub prefixes: Vec<(String, String)>,
}

/// The prefixes that an export is queried with.
pub open spec fn export_prefixes(g: GraphModel) -> Seq<(Seq<char>, Seq<char>)> {
    seq![
        ("skos"@, SKOS@),
        ("rdfs"@, RDFS@),
        ("dcterms"@, DCTERMS@),
        ("xsd"@, XSD@),
        ("xl"@, g.vocab_iri),
        (""@, g.base_iri),
    ]
}

/// The declarations that a query does not make of the first `n` prefixes.
pub open spec fn missing_prefixes(
    prefixes: Seq<(Seq<char>, Seq<char>)>,
    query: Seq<char>,
    n: nat,
) -> Seq<char>
    decreases n,
{
    if n == 0 {
        Seq::empty()
    } else {
        let front = missing_prefixes(prefixes, query, (n - 1) as nat);
        let p = prefixes[n - 1];
        if declares(query, p.0) {
            front
        } else {
            front + "PREFIX "@ + p.0 + ": <"@ + p.1 + ">\n"@
        }
    }
}

/// A query declares a prefix itself.
pub open spec fn declares(query: Seq<char>, name: Seq<char>) -> bool {
    has(ascii_lower_text(query), "prefix "@ + name + ":"@)
}

/// A query with the declarations that it does not make put before it.
pub open spec fn prefixed(prefixes: Seq<(Seq<char>, Seq<char>)>, query: Seq<char>) -> Seq<char> {
    missing_prefixes(prefixes, query, prefixes.len()) + query
}

/// What asking a query of documents may give.
pub open spec fn may_reply(
    documents: Seq<Seq<char>>,
    query: Seq<char>,
    reply: ReplyModel,
) -> bool {
    match reply {
        ReplyModel::Syntax(e) => syntax_fault(query) == Some(e),
        _ => syntax_fault(query) is None && may_give(documents, query, reply),
    }
}

/// The message about a format that is not known.
pub open spec fn unknown_format(format: Seq<char>) -> Seq<char> {
    "Unknown result format '"@ + format + "' (expected one of "@ + FORMATS@ + ")"@
}

/// What a query of documents may come to: an error for a format that is not
/// known, and otherwise what is handed out for what the query may give.
pub open spec fn may_come_to(
    documents: Seq<Seq<char>>,
    prefixes: Seq<(Seq<char>, Seq<char>)>,
    query: Seq<char>,
    format: Seq<char>,
    r: Result<OutputModel, Seq<char>>,
) -> bool {
    if is_format(format) {
        exists|reply: ReplyModel| #[trigger]
            may_reply(documents, prefixed(prefixes, query), reply) && r == outcome(
                prefixes,
                format,
                reply,
            )
    } else {
        r == Err::<OutputModel, Seq<char>>(unknown_format(format))
    }
}

impl Engine {
    /// Export the ontology and load it.
    pub fn load(config: &Config, all: &Vec<NodeFile>, base_iri: Option<&str>) -> (r: Result<
        Engine,
        String,
    >)
        ensures
            match graph_of(config@, files(all@), None, opt_str(base_iri)) {
                Err(e) => r is Err && r->Err_0@ == e,
                Ok(g) => match turtle_fault(turtle(g)) {
                    Some(e) => r is Err && r->Err_0@ == "failed to load the exported Turtle: "@ + e,
                    None => {
                        &&& r is Ok
                        &&& documents(r->Ok_0.store) == seq![turtle(g)]
                        &&& prefixes_of(r->Ok_0.prefixes@) == export_prefixes(g)
                    },
                },
            },
    {
        let graph = match export::build(config, all, None, base_iri) {
            Ok(g) => g,
            Err(e) => return Err(e),
        };
        let text = to_turtle(&graph);
        let mut store = match new_store() {
            Ok(s) => s,
            Err(e) => {
                let mut m = "cannot create in-memory store: ".to_string();
                m.append(e.as_str());
                return Err(m);
            },
        };
        if let Err(e) = load_turtle(&mut store, text.as_str()) {
            let mut m = "failed to load the exported Turtle: ".to_string();
            m.append(e.as_str());
            return Err(m);
        }
        assert(documents(store) =~= seq![turtle(graph@)]);
        let mut prefixes: Vec<(String, String)> = Vec::new();
        prefixes.push(("skos".to_string(), SKOS.to_string()));
        prefixes.push(("rdfs".to_string(), RDFS.to_string()));
        prefixes.push(("dcterms".to_string(), DCTERMS.to_string()));
        prefixes.push(("xsd".to_string(), XSD.to_string()));
        prefixes.push(("xl".to_string(), graph.vocab_iri.clone()));
        prefixes.push(("".to_string(), graph.base_iri.clone()));
        assert(prefixes_of(prefixes@) =~= export_prefixes(graph@));
        Ok(Engine { store, prefixes })
    }

    /// Prepend `PREFIX` declarations the query does not already make.
    pub fn with_prefixes(&self, query: &str) -> (r: String)
        ensures
            r@ == prefixed(prefixes_of(self.prefixes@), query@),
    {
        let cs = chars_of(query);
        let lower = lower_chars(cs.as_slice());
        let ghost all = prefixes_of(self.prefixes@);
        let mut out = String::new();
        for i in 0..self.prefixes.len()
            invariant
                all == prefixes_of(self.prefixes@),
                lower@ == ascii_lower_text(query@),
                out@ == missing_prefixes(all, query@, i as nat),
        {
            let name = self.prefixes[i].0.as_str();
            let iri = self.prefixes[i].1.as_str();
            assert(all[i as int] == (name@, iri@));
            let mut declaration = "prefix ".to_string();
            declaration.append(name);
            declaration.append(":");
            if !contains(lower.as_slice(), declaration.as_str()) {
                out.append("PREFIX ");
                out.append(name);
                out.append(": <");
                out.append(iri);
                out.append(">\n");
            }
        }
        assert(all.len() == self.prefixes@.len());
        out.append(query);
        out
    }

    /// Run a query and give the results in a format.
    pub fn query(&self, query: &str, format: &str) -> (r: Result<Output, String>)
        ensures
            may_come_to(
                documents(self.store),
                prefixes_of(self.prefixes@),
                query@,
                format@,
                outcome_of(r),
            ),
    {
        if !known_format(format) {
            let mut m = "Unknown result format '".to_string();
            m.append(format);
            m.append("' (expected one of ");
            m.append(FORMATS);
            m.append(")");
            return Err(m);
        }
        let whole = self.with_prefixes(query);
        let reply = reply(&self.store, whole.as_str());
        assert(may_reply(documents(self.store), whole@, reply_of(reply)));
        render_reply(&self.prefixes, format, &reply)
    }
}

/// Load an ontology and run a query over it.
pub fn run(
    config: &Config,
    all: &Vec<NodeFile>,
    query: &str,
    format: &str,
    base_iri: Option<&str>,
) -> (r: Result<Output, String>)
    ensures
        match graph_of(config@, files(all@), None, opt_str(base_iri)) {
            Err(e) => r is Err && r->Err_0@ == e,
            Ok(g) => match turtle_fault(turtle(g)) {
                Some(e) => r is Err && r->Err_0@ == "failed to load the exported Turtle: "@ + e,
                None => may_come_to(
                    seq![turtle(g)],
                    export_prefixes(g),
                    query@,
                    format@,
                    outcome_of(r),
                ),
            },
        },
{
    match Engine::load(config, all, base_iri) {
        Ok(engine) => engine.query(query, format),
        Err(e) => Err(e),
    }
}

// ---------------------------------------------------------------------------
// The endpoint
// ---------------------------------------------------------------------------

/// The answer to an HTTP request.
#[derive(Debug)]
pub struct Response {
    pub status: u16,
    pub media: &'static str,
    pub body: Vec<u8>,
}

/// What an answer is.
pub struct ResponseModel {
    pub status: u16,
    pub media: Seq<char>,
    pub body: Seq<u8>,
}

impl View for Response {
    type V = ResponseModel;

    open spec fn view(&self) -> ResponseModel {
        ResponseModel { status: self.status, media: self.media@, body: self.body@ }
    }
}

/// The answer with a message.
pub open spec fn message_response(status: u16, message: Seq<char>) -> ResponseModel {
    ResponseModel { status, media: "text/plain"@, body: encode_utf8(message) }
}

/// The answer with what a query came to.
pub open spec fn result_response(r: Result<OutputModel, Seq<char>>) -> ResponseModel {
    match r {
        Ok(out) => ResponseModel { status: 200, media: out.media, body: out.body },
        Err(e) => message_response(400, e),
    }
}

/// A letter in upper case, when it is ASCII.
pub open spec fn ascii_upper(c: char) -> char {
    if 97 <= c as int <= 122 {
        (c as int - 32) as char
    } else {
        c
    }
}

/// A text with its ASCII letters in upper case.
pub open spec fn ascii_upper_text(s: Seq<char>) -> Seq<char> {
    Seq::new(s.len(), |i: int| ascii_upper(s[i]))
}

/// The answer with a message.
pub fn text_response(status: u16, message: &str) -> (r: Response)
    ensures
        r@ == message_response(status, message@),
{
    Response { status, media: "text/plain", body: message.as_bytes_vec() }
}

fn upper_text(s: &str) -> (r: String)
    ensures
        r@ == ascii_upper_text(s@),
{
    let cs = chars_of(s);
    let mut r: Vec<char> = Vec::new();
    for i in 0..cs.len()
        invariant
            cs@ == s@,
            r@ == ascii_upper_text(cs@).take(i as int),
    {
        let c = cs[i];
        let n = c as u32;
        let up = if 97 <= n && n <= 122 {
            (n as u8 - 32) as char
        } else {
            c
        };
        proof {
            lemma_take_next(ascii_upper_text(cs@), i as int);
        }
        r.push(up);
    }
    assert(ascii_upper_text(cs@).take(cs@.len() as int) == ascii_upper_text(cs@));
    text_of(r.as_slice())
}

/// The answer to a request whose query came to a result.
pub fn respond_with(r: Result<Output, String>) -> (a: Response)
    ensures
        a@ == result_response(outcome_of(r)),
{
    match r {
        Ok(out) => Response { status: 200, media: out.media, body: out.body },
        Err(e) => text_response(400, e.as_str()),
    }
}

/// What a request may be answered.
pub open spec fn may_answer(
    documents: Seq<Seq<char>>,
    prefixes: Seq<(Seq<char>, Seq<char>)>,
    request: Result<Seq<char>, Seq<char>>,
    format: Seq<char>,
    a: ResponseModel,
) -> bool {
    &&& request matches Err(e) ==> a == message_response(status_of(e), e)
    &&& request matches Ok(query) ==> exists|r: Result<OutputModel, Seq<char>>| #[trigger]
        answers_with(documents, prefixes, query, format, a, r)
}

/// An answer hands out what a query came to.
pub open spec fn answers_with(
    documents: Seq<Seq<char>>,
    prefixes: Seq<(Seq<char>, Seq<char>)>,
    query: Seq<char>,
    format: Seq<char>,
    a: ResponseModel,
    r: Result<OutputModel, Seq<char>>,
) -> bool {
    may_come_to(documents, prefixes, query, format, r) && a == result_response(r)
}

proof fn lemma_may_answer(
    documents: Seq<Seq<char>>,
    prefixes: Seq<(Seq<char>, Seq<char>)>,
    request: Result<Seq<char>, Seq<char>>,
    format: Seq<char>,
    a: ResponseModel,
    r: Result<OutputModel, Seq<char>>,
)
    requires
        request is Ok,
        answers_with(documents, prefixes, request->Ok_0, format, a, r),
    ensures
        may_answer(documents, prefixes, request, format, a),
{
}

/// Answer a request. A body that is not UTF-8 is `None`.
pub fn respond(
    engine: &Engine,
    method: &str,
    url: &str,
    content_type: Option<&str>,
    accept: Option<&str>,
    body: Option<&str>,
) -> (a: Response)
    ensures
        match body {
            None => a@ == message_response(400, "bad request: body is not UTF-8"@),
            Some(text) => may_answer(
                documents(engine.store),
                prefixes_of(engine.prefixes@),
                requested_query(ascii_upper_text(method@), url@, opt_str(content_type), text@),
                accepted_format(opt_str(accept)),
                a@,
            ),
        },
{
    let text = match body {
        Some(b) => b,
        None => return text_response(400, "bad request: body is not UTF-8"),
    };
    let upper = upper_text(method);
    match query_from_request(upper.as_str(), url, content_type, text) {
        Err(message) => text_response(error_status(message), message),
        Ok(query) => {
            let format = format_for_accept(accept);
            let result = engine.query(query.as_str(), format);
            let ghost r = outcome_of(result);
            let a = respond_with(result);
            proof {
                lemma_may_answer(
                    documents(engine.store),
                    prefixes_of(engine.prefixes@),
                    requested_query(upper@, url@, opt_str(content_type), text@),
                    format@,
                    a@,
                    r,
                );
            }
            a
        },
    }
}

// ---------------------------------------------------------------------------
// Laws
// ---------------------------------------------------------------------------

/// A prefix that a query declares itself is not declared again, and with all
/// of them declared the query is asked as it is.
pub proof fn a_declared_prefix_is_left_alone(
    prefixes: Seq<(Seq<char>, Seq<char>)>,
    query: Seq<char>,
)
    requires
        forall|i: int| 0 <= i < prefixes.len() ==> declares(query, (#[trigger] prefixes[i]).0),
    ensures
        prefixed(prefixes, query) == query,
{
    lemma_all_declared(prefixes, query, prefixes.len());
    assert(prefixed(prefixes, query) =~= query);
}

proof fn lemma_all_declared(
    prefixes: Seq<(Seq<char>, Seq<char>)>,
    query: Seq<char>,
    n: nat,
)
    requires
        n <= prefixes.len(),
        forall|i: int| 0 <= i < prefixes.len() ==> declares(query, (#[trigger] prefixes[i]).0),
    ensures
        missing_prefixes(prefixes, query, n).len() == 0,
    decreases n,
{
    if n > 0 {
        lemma_all_declared(prefixes, query, (n - 1) as nat);
        assert(declares(query, prefixes[n - 1].0));
    }
}

/// A request that is refused is answered with its message and never asks the
/// store: an unknown path with 404, another method with 405, and a missing
/// query with 400.
pub proof fn a_refused_request_says_why(
    documents: Seq<Seq<char>>,
    prefixes: Seq<(Seq<char>, Seq<char>)>,
    method: Seq<char>,
    url: Seq<char>,
    content_type: Option<Seq<char>>,
    body: Seq<char>,
    format: Seq<char>,
    a: ResponseModel,
)
    requires
        may_answer(
            documents,
            prefixes,
            requested_query(method, url, content_type, body),
            format,
            a,
        ),
    ensures
        ({
            let path = crate::commands::sparql::url_path(url);
            &&& path != "/sparql"@ && path != "/"@ ==> a == message_response(404, NOT_FOUND@)
            &&& (path == "/sparql"@ || path == "/"@) && method != "GET"@ && method != "POST"@
                ==> a == message_response(405, BAD_METHOD@)
            &&& requested_query(method, url, content_type, body) == Err::<Seq<char>, Seq<char>>(
                NO_QUERY@,
            ) ==> a == message_response(400, NO_QUERY@)
        }),
{
    reveal_strlit("not found: the endpoint is /sparql");
    reveal_strlit("method not allowed: use GET or POST");
    reveal_strlit("bad request: no SPARQL query (GET ?query=… or POST the query)");
    reveal_strlit("not found");
    reveal_strlit("method");
    assert(NOT_FOUND@.take(9) =~= "not found"@);
    assert(BAD_METHOD@.take(6) =~= "method"@);
    assert(BAD_METHOD@.take(9)[0] == 'm' && "not found"@[0] == 'n');
    assert(NO_QUERY@.take(9)[0] == 'b' && NO_QUERY@.take(6)[0] == 'b' && "method"@[0] == 'm');
}

}

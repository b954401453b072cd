//! What a run has learned from the web so far, and what it may ask.

use vstd::prelude::*;
use vstd::string::*;

use crate::commands::source_check::quotes::{html_to_text, normal, normalise, page_text};
use crate::commands::source_check::snapshots::{
    candidate_order, candidates, DEFAULT_ARCHIVE_AROUND, DEFAULT_ARCHIVE_WEB, DEFAULT_CDX,
    DEFAULT_WAYBACK,
};
use crate::commands::source_check::urls::{percent_encode, percent_encoded};
use crate::commands::sources::DEFAULT_LOCK;
use crate::digest::{sha256, sha256_hex};
use crate::json::{
    json_bool_at, json_rows, json_text_at, read_bool, read_rows, read_text, rows_model,
};
use crate::number::hex;
use crate::table::Table;
use crate::text::{opt_text, texts};
use vstd::utf8::encode_utf8;

verus! {

/// How the source pass runs.
#[derive(Debug, Clone)]
pub struct SourceOptions {
    /// Lockfile path, relative to the ontology directory unless absolute.
    pub lock: String,
    /// Minimum gap between requests, in milliseconds.
    pub rate_ms: u64,
    /// Wayback availability endpoint (`?url=` is appended).
    pub wayback: String,
    /// Wayback CDX endpoint used to list snapshots when a quote has drifted.
    pub cdx: String,
    /// Snapshot base URL: `<base>/<timestamp>/<url>`.
    pub archive_web: String,
    /// `YYYYMMDD`; snapshots nearest this date are tried first.
    pub archive_around: String,
    /// Per-request timeout, in milliseconds.
    pub timeout_ms: u64,
}

impl Default for SourceOptions {
    fn default() -> (r: SourceOptions)
        ensures
            r.lock@ == DEFAULT_LOCK@,
            r.rate_ms == 1_000,
            r.wayback@ == DEFAULT_WAYBACK@,
            r.cdx@ == DEFAULT_CDX@,
            r.archive_web@ == DEFAULT_ARCHIVE_WEB@,
            r.archive_around@ == DEFAULT_ARCHIVE_AROUND@,
            r.timeout_ms == 20_000,
    {
        SourceOptions {
            lock: DEFAULT_LOCK.to_string(),
            rate_ms: 1_000,
            wayback: DEFAULT_WAYBACK.to_string(),
            cdx: DEFAULT_CDX.to_string(),
            archive_web: DEFAULT_ARCHIVE_WEB.to_string(),
            archive_around: DEFAULT_ARCHIVE_AROUND.to_string(),
            timeout_ms: 20_000,
        }
    }
}

/// What one fetch produced.
#[derive(Debug, Clone)]
pub enum Fetch {
    Response { status: u16, body: String },
    Unreachable(String),
}

/// What a fetch is.
pub enum FetchModel {
    Response { status: u16, body: Seq<char> },
    Unreachable(Seq<char>),
}

impl View for Fetch {
    type V = FetchModel;

    open spec fn view(&self) -> FetchModel {
        match self {
            Fetch::Response { status, body } => FetchModel::Response { status: *status, body: body@ },
            Fetch::Unreachable(reason) => FetchModel::Unreachable(reason@),
        }
    }
}

/// What is known of a cited page.
#[derive(Debug, Clone)]
pub enum Live {
    /// It answered with an error status.
    Dead(u16),
    /// It answered: the digest of its text and the text as it is compared.
    Page { status: u16, digest: String, page: String },
    /// Its host could not be reached.
    Unreachable(String),
}

/// What is known of a cited page.
pub enum LiveModel {
    Dead(u16),
    Page { status: u16, digest: Seq<char>, page: Seq<char> },
    Unreachable(Seq<char>),
}

impl View for Live {
    type V = LiveModel;

    open spec fn view(&self) -> LiveModel {
        match self {
            Live::Dead(status) => LiveModel::Dead(*status),
            Live::Page { status, digest, page } => LiveModel::Page {
                status: *status,
                digest: digest@,
                page: page@,
            },
            Live::Unreachable(reason) => LiveModel::Unreachable(reason@),
        }
    }
}

/// What is known of a snapshot: its text as it is compared, when it could be
/// read, or why it could not be fetched.
#[derive(Debug, Clone)]
pub struct Snapshot {
    pub page: Option<String>,
    pub failure: Option<String>,
}

/// What is known of a snapshot.
pub struct SnapshotModel {
    pub page: Option<Seq<char>>,
    pub failure: Option<Seq<char>>,
}

impl View for Snapshot {
    type V = SnapshotModel;

    open spec fn view(&self) -> SnapshotModel {
        SnapshotModel { page: opt_text(self.page), failure: opt_text(self.failure) }
    }
}

/// The snapshots of a page in the order they are tried.
#[derive(Debug, Clone)]
pub struct Stamps {
    pub list: Vec<String>,
}

impl View for Stamps {
    type V = Seq<Seq<char>>;

    open spec fn view(&self) -> Seq<Seq<char>> {
        texts(self.list@)
    }
}

/// The closest snapshot of a page, when the archive has one.
#[derive(Debug, Clone)]
pub struct Closest {
    pub archive: Option<String>,
}

impl View for Closest {
    type V = Option<Seq<char>>;

    open spec fn view(&self) -> Option<Seq<char>> {
        opt_text(self.archive)
    }
}

/// Something that a run has to fetch.
#[derive(Debug, Clone)]
pub enum Request {
    /// A cited page, by its URL.
    Page(String),
    /// A snapshot, by its raw URL.
    Snapshot(String),
    /// The index of the snapshots of a page, by the page's URL.
    Index(String),
    /// The closest snapshot of a page, by the page's URL.
    Lookup(String),
}

/// What a request is.
pub enum RequestModel {
    Page(Seq<char>),
    Snapshot(Seq<char>),
    Index(Seq<char>),
    Lookup(Seq<char>),
}

impl View for Request {
    type V = RequestModel;

    open spec fn view(&self) -> RequestModel {
        match self {
            Request::Page(url) => RequestModel::Page(url@),
            Request::Snapshot(url) => RequestModel::Snapshot(url@),
            Request::Index(url) => RequestModel::Index(url@),
            Request::Lookup(url) => RequestModel::Lookup(url@),
        }
    }
}

/// The URL of a request.
pub open spec fn request_target(
    wayback: Seq<char>,
    cdx: Seq<char>,
    request: RequestModel,
) -> Seq<char> {
    match request {
        RequestModel::Page(url) => url,
        RequestModel::Snapshot(url) => url,
        RequestModel::Index(url) => cdx + "?url="@ + percent_encoded(url)
            + "&output=json&filter=statuscode:200&collapse=timestamp:6&limit=400"@,
        RequestModel::Lookup(url) => wayback + "?url="@ + percent_encoded(url),
    }
}

/// The URL to fetch for a request.
pub fn request_url(opts: &SourceOptions, request: &Request) -> (r: String)
    ensures
        r@ == request_target(opts.wayback@, opts.cdx@, request@),
{
    match request {
        Request::Page(url) => url.clone(),
        Request::Snapshot(url) => url.clone(),
        Request::Index(url) => {
            let mut r = opts.cdx.clone();
            r.append("?url=");
            r.append(percent_encode(url.as_str()).as_str());
            r.append("&output=json&filter=statuscode:200&collapse=timestamp:6&limit=400");
            r
        },
        Request::Lookup(url) => {
            let mut r = opts.wayback.clone();
            r.append("?url=");
            r.append(percent_encode(url.as_str()).as_str());
            r
        },
    }
}

/// What a run has learned from the web so far. Everything is fetched once.
#[derive(Debug)]
pub struct Web {
    /// Cited pages by URL.
    pub live: Table<Live>,
    /// Snapshots by raw URL.
    pub pages: Table<Snapshot>,
    /// Snapshots to try, by the URL of the page.
    pub stamps: Table<Stamps>,
    /// Closest snapshots, by the URL of the page.
    pub lookups: Table<Closest>,
}

/// What a run has learned.
pub struct WebModel {
    pub live: Map<Seq<char>, LiveModel>,
    pub pages: Map<Seq<char>, SnapshotModel>,
    pub stamps: Map<Seq<char>, Seq<Seq<char>>>,
    pub lookups: Map<Seq<char>, Option<Seq<char>>>,
}

impl View for Web {
    type V = WebModel;

    open spec fn view(&self) -> WebModel {
        WebModel {
            live: self.live@,
            pages: self.pages@,
            stamps: self.stamps@,
            lookups: self.lookups@,
        }
    }
}

/// The answer to the request is known.
pub open spec fn answered(web: WebModel, request: RequestModel) -> bool {
    match request {
        RequestModel::Page(url) => web.live.dom().contains(url),
        RequestModel::Snapshot(url) => web.pages.dom().contains(url),
        RequestModel::Index(url) => web.stamps.dom().contains(url),
        RequestModel::Lookup(url) => web.lookups.dom().contains(url),
    }
}

/// What an answer says of a cited page.
pub open spec fn live_of(fetch: FetchModel) -> LiveModel {
    match fetch {
        FetchModel::Unreachable(reason) => LiveModel::Unreachable(reason),
        FetchModel::Response { status, body } => if status >= 400 {
            LiveModel::Dead(status)
        } else {
            LiveModel::Page {
                status,
                digest: hex(sha256(encode_utf8(page_text(body)))),
                page: normal(page_text(body)),
            }
        },
    }
}

/// What an answer says of a snapshot.
pub open spec fn snapshot_of(fetch: FetchModel) -> SnapshotModel {
    match fetch {
        FetchModel::Unreachable(reason) => SnapshotModel { page: None, failure: Some(reason) },
        FetchModel::Response { status, body } => SnapshotModel {
            page: if status < 400 {
                Some(normal(page_text(body)))
            } else {
                None
            },
            failure: None,
        },
    }
}

/// The snapshots that an answer of the index lists, in the order they are
/// tried.
pub open spec fn stamps_of(fetch: FetchModel, around: Seq<char>) -> Seq<Seq<char>> {
    match fetch {
        FetchModel::Response { status, body } if status < 400 => match json_rows(body) {
            Some(rows) => candidates(rows, around),
            None => candidates(Seq::empty(), around),
        },
        _ => candidates(Seq::empty(), around),
    }
}

/// The closest snapshot that an answer of the availability API names.
pub open spec fn closest_of(fetch: FetchModel) -> Option<Seq<char>> {
    match fetch {
        FetchModel::Response { status, body } if status < 400 => if json_bool_at(
            body,
            "/archived_snapshots/closest/available"@,
        ) == Some(true) {
            json_text_at(body, "/archived_snapshots/closest/url"@)
        } else {
            None
        },
        _ => None,
    }
}

/// What is known after an answer.
pub open spec fn recorded(
    web: WebModel,
    around: Seq<char>,
    request: RequestModel,
    fetch: FetchModel,
) -> WebModel {
    match request {
        RequestModel::Page(url) => WebModel { live: web.live.insert(url, live_of(fetch)), ..web },
        RequestModel::Snapshot(url) => WebModel {
            pages: web.pages.insert(url, snapshot_of(fetch)),
            ..web
        },
        RequestModel::Index(url) => WebModel {
            stamps: web.stamps.insert(url, stamps_of(fetch, around)),
            ..web
        },
        RequestModel::Lookup(url) => WebModel {
            lookups: web.lookups.insert(url, closest_of(fetch)),
            ..web
        },
    }
}

fn live_from(fetch: &Fetch) -> (r: Live)
    ensures
        r@ == live_of(fetch@),
{
    match fetch {
        Fetch::Unreachable(reason) => Live::Unreachable(reason.clone()),
        Fetch::Response { status, body } => if *status >= 400 {
            Live::Dead(*status)
        } else {
            let text = html_to_text(body.as_str());
            Live::Page {
                status: *status,
                digest: sha256_hex(text.as_str()),
                page: normalise(text.as_str()),
            }
        },
    }
}

fn snapshot_from(fetch: &Fetch) -> (r: Snapshot)
    ensures
        r@ == snapshot_of(fetch@),
{
    match fetch {
        Fetch::Unreachable(reason) => Snapshot { page: None, failure: Some(reason.clone()) },
        Fetch::Response { status, body } => if *status < 400 {
            let text = html_to_text(body.as_str());
            Snapshot { page: Some(normalise(text.as_str())), failure: None }
        } else {
            Snapshot { page: None, failure: None }
        },
    }
}

fn stamps_from(fetch: &Fetch, around: &str) -> (r: Stamps)
    ensures
        r@ == stamps_of(fetch@, around@),
{
    let none: Vec<Vec<String>> = Vec::new();
    assert(rows_model(none@) =~= Seq::<Seq<Seq<char>>>::empty());
    let rows = match fetch {
        Fetch::Response { status, body } => if *status < 400 {
            match read_rows(body.as_str()) {
                Some(rows) => rows,
                None => none,
            }
        } else {
            none
        },
        Fetch::Unreachable(_) => none,
    };
    Stamps { list: candidate_order(&rows, around) }
}

/// The closest Wayback snapshot that the availability API's answer names, if
/// it has one.
pub fn wayback_lookup(fetch: &Fetch) -> (r: Option<String>)
    ensures
        opt_text(r) == closest_of(fetch@),
{
    match fetch {
        Fetch::Response { status, body } => {
            if *status >= 400 {
                return None;
            }
            match read_bool(body.as_str(), "/archived_snapshots/closest/available") {
                Some(true) => read_text(body.as_str(), "/archived_snapshots/closest/url"),
                _ => None,
            }
        },
        Fetch::Unreachable(_) => None,
    }
}

impl Web {
    /// Nothing learned yet.
    pub fn new() -> (r: Web)
        ensures
            r@ == (WebModel {
                live: Map::empty(),
                pages: Map::empty(),
                stamps: Map::empty(),
                lookups: Map::empty(),
            }),
    {
        Web { live: Table::new(), pages: Table::new(), stamps: Table::new(), lookups: Table::new() }
    }

    /// Takes in the answer to a request.
    pub fn record(&mut self, opts: &SourceOptions, request: &Request, fetch: &Fetch)
        ensures
            final(self)@ == recorded(old(self)@, opts.archive_around@, request@, fetch@),
    {
        match request {
            Request::Page(url) => {
                self.live.insert(url.clone(), live_from(fetch));
            },
            Request::Snapshot(url) => {
                self.pages.insert(url.clone(), snapshot_from(fetch));
            },
            Request::Index(url) => {
                self.stamps.insert(url.clone(), stamps_from(fetch, opts.archive_around.as_str()));
            },
            Request::Lookup(url) => {
                self.lookups.insert(url.clone(), Closest { archive: wayback_lookup(fetch) });
            },
        }
    }
}

}

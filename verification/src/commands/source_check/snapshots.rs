//! Snapshot URLs, and the order in which an archive's snapshots are tried.

use vstd::prelude::*;
use vstd::string::*;

use crate::json::rows_model;
use crate::number::{integer_value, short_integer};
use crate::order::{
    before, comes_before, lemma_before_asymmetric, lemma_before_total, lemma_before_transitive,
    lemma_contains_last,
};
use crate::pattern::{
    find_matches, group, group_text, hits, lemma_first_hit, regex_matches, Hit,
    SNAPSHOT_DATE, SNAPSHOT_STAMP,
};
use crate::text::{
    add_new, append_new, chars_of, contains, contains_text, has, head, lemma_append_new,
    lemma_push_text, lemma_take_next, opt_text, tail, text_of, texts,
};

verus! {

/// Wayback availability API.
pub const DEFAULT_WAYBACK: &'static str = "https://archive.org/wayback/available";

/// Wayback CDX index, listing every snapshot of a URL.
pub const DEFAULT_CDX: &'static str = "https://web.archive.org/cdx/search/cdx";

/// Wayback snapshot base: `<base>/<timestamp>/<url>` is a copy.
pub const DEFAULT_ARCHIVE_WEB: &'static str = "https://web.archive.org/web";

/// Snapshots are tried closest to this date first (`YYYYMMDD`).
pub const DEFAULT_ARCHIVE_AROUND: &'static str = "20150101";

/// Snapshots nearest the chosen date tried first, hoping one carries every
/// lost quote; the best partial covers among them are pinned otherwise.
pub const PIN_CANDIDATES: usize = 6;

/// Snapshot fetches allowed per search, the nearest window included, before
/// the quotes still lost stay unpinned.
pub const PIN_FETCH_BUDGET: usize = 20;

// ---------------------------------------------------------------------------
// Snapshot URLs
// ---------------------------------------------------------------------------

/// The raw form of a snapshot URL, from the matches of `SNAPSHOT_STAMP`.
pub open spec fn raw_of_hits(hits: Seq<Hit>, url: Seq<char>) -> Seq<char> {
    if hits.len() == 0 {
        url
    } else {
        let h = hits[0];
        h.before + group(h, 1) + "id_/"@ + group(h, 2) + url.skip(
            (h.before.len() + group(h, 0).len()) as int,
        )
    }
}

/// The raw (`id_`) form of a snapshot URL, without the Wayback toolbar.
pub open spec fn raw_url(archive: Seq<char>) -> Seq<char> {
    if has(archive, "id_/"@) {
        archive
    } else {
        raw_of_hits(regex_matches(SNAPSHOT_STAMP@, archive).0, archive)
    }
}

/// The raw (`id_`) form of a snapshot URL, without the Wayback toolbar.
pub fn raw_snapshot_url(archive: &str) -> (r: String)
    ensures
        r@ == raw_url(archive@),
{
    let cs = chars_of(archive);
    if contains(cs.as_slice(), "id_/") {
        return text_of(cs.as_slice());
    }
    let m = find_matches(SNAPSHOT_STAMP, archive);
    if m.found.len() == 0 {
        return text_of(cs.as_slice());
    }
    let h = &m.found[0];
    assert(hits(m.found@)[0] == h@);
    proof {
        lemma_first_hit(m@.0, m@.1);
    }
    let whole = group_text(h, 0);
    let before: usize = h.before.as_str().unicode_len();
    let length: usize = whole.as_str().unicode_len();
    let total: usize = cs.len();
    assert(before + length <= total);
    let mut r = h.before.clone();
    r.append(group_text(h, 1).as_str());
    r.append("id_/");
    r.append(group_text(h, 2).as_str());
    r.append(text_of(tail(cs.as_slice(), before + length)).as_str());
    r
}

/// The date of a snapshot from the matches of `SNAPSHOT_DATE`.
pub open spec fn date_of_hits(hits: Seq<Hit>) -> Option<Seq<char>> {
    if hits.len() == 0 || group(hits[0], 1).len() < 8 {
        None
    } else {
        let g = group(hits[0], 1);
        Some(g.subrange(0, 4) + "-"@ + g.subrange(4, 6) + "-"@ + g.subrange(6, 8))
    }
}

/// `YYYY-MM-DD` of a snapshot URL's timestamp segment.
pub open spec fn date_in_url(archive: Seq<char>) -> Option<Seq<char>> {
    date_of_hits(regex_matches(SNAPSHOT_DATE@, archive).0)
}

/// `YYYY-MM-DD` of a snapshot URL's timestamp segment.
pub fn snapshot_date(archive: &str) -> (r: Option<String>)
    ensures
        opt_text(r) == date_in_url(archive@),
{
    let m = find_matches(SNAPSHOT_DATE, archive);
    if m.found.len() == 0 {
        return None;
    }
    assert(hits(m.found@)[0] == m.found@[0]@);
    let g = chars_of(group_text(&m.found[0], 1).as_str());
    if g.len() < 8 {
        return None;
    }
    let year = text_of(head(g.as_slice(), 4));
    let month = text_of(head(tail(g.as_slice(), 4), 2));
    let day = text_of(head(tail(g.as_slice(), 6), 2));
    assert(year@ =~= g@.subrange(0, 4));
    assert(month@ =~= g@.subrange(4, 6));
    assert(day@ =~= g@.subrange(6, 8));
    let mut r = year;
    r.append("-");
    r.append(month.as_str());
    r.append("-");
    r.append(day.as_str());
    Some(r)
}

// ---------------------------------------------------------------------------
// The order of snapshots
// ---------------------------------------------------------------------------

/// The size of an integer.
pub open spec fn size_of_int(n: int) -> int {
    if n < 0 {
        -n
    } else {
        n
    }
}

/// The day that a timestamp begins with, read as one number `YYYYMMDD`.
pub open spec fn stamp_day(ts: Seq<char>) -> Option<int> {
    if ts.len() < 8 {
        None
    } else {
        integer_value(ts.take(8))
    }
}

/// How far a timestamp is from a day.
pub open spec fn distance(ts: Seq<char>, around: int) -> int {
    size_of_int(stamp_day(ts)->Some_0 - around)
}

/// One timestamp is tried before another: it is nearer, or as near and
/// earlier in the order of texts.
pub open spec fn nearer(a: Seq<char>, b: Seq<char>, around: int) -> bool {
    distance(a, around) < distance(b, around) || (distance(a, around) == distance(b, around)
        && before(a, b))
}

/// A list of timestamps with one more put before the further ones at its end.
pub open spec fn insert_near(list: Seq<Seq<char>>, x: Seq<char>, around: int) -> Seq<Seq<char>>
    decreases list.len(),
{
    if list.len() > 0 && nearer(x, list.last(), around) {
        insert_near(list.drop_last(), x, around).push(list.last())
    } else {
        list.push(x)
    }
}

/// The timestamps of a list, each once, nearest first.
pub open spec fn nearest_first(list: Seq<Seq<char>>, around: int) -> Seq<Seq<char>>
    decreases list.len(),
{
    if list.len() == 0 {
        Seq::empty()
    } else {
        let front = nearest_first(list.drop_last(), around);
        if front.contains(list.last()) {
            front
        } else {
            insert_near(front, list.last(), around)
        }
    }
}

/// The timestamps in the rows of the index after its heading: the second
/// column, where it begins with a day.
pub open spec fn row_stamps(rows: Seq<Seq<Seq<char>>>, n: nat) -> Seq<Seq<char>>
    decreases n,
{
    if n <= 1 {
        Seq::empty()
    } else {
        let row = rows[n - 1];
        let front = row_stamps(rows, (n - 1) as nat);
        if row.len() > 1 && stamp_day(row[1]) is Some {
            front.push(row[1])
        } else {
            front
        }
    }
}

/// The year of a day: the day without its last four digits.
pub open spec fn year_of_day(day: int) -> int {
    if day < 0 {
        -((-day) / 10_000)
    } else {
        day / 10_000
    }
}

/// The year of a timestamp.
pub open spec fn stamp_year(ts: Seq<char>) -> int {
    year_of_day(stamp_day(ts)->Some_0)
}

/// How far a timestamp is from the start of its year.
pub open spec fn from_start(ts: Seq<char>) -> int {
    size_of_int(stamp_day(ts)->Some_0 - stamp_year(ts) * 10_000 - 101)
}

/// The timestamp of a year nearest the year's start; of equally near ones the
/// first in the list.
pub open spec fn pick_of_year(list: Seq<Seq<char>>, year: int) -> Option<Seq<char>>
    decreases list.len(),
{
    if list.len() == 0 {
        None
    } else {
        let best = pick_of_year(list.drop_last(), year);
        let c = list.last();
        if stamp_year(c) != year {
            best
        } else {
            match best {
                None => Some(c),
                Some(b) => if from_start(c) < from_start(b) {
                    Some(c)
                } else {
                    best
                },
            }
        }
    }
}

/// One year is tried before another: it is nearer, or as near and earlier.
pub open spec fn year_before(a: int, b: int, around: int) -> bool {
    size_of_int(a - around) < size_of_int(b - around) || (size_of_int(a - around) == size_of_int(
        b - around,
    ) && a < b)
}

/// A list of years with one more put before the further ones at its end.
pub open spec fn insert_year(list: Seq<int>, y: int, around: int) -> Seq<int>
    decreases list.len(),
{
    if list.len() > 0 && year_before(y, list.last(), around) {
        insert_year(list.drop_last(), y, around).push(list.last())
    } else {
        list.push(y)
    }
}

/// The years of a list of timestamps, each once, nearest first.
pub open spec fn years_of(list: Seq<Seq<char>>, around: int) -> Seq<int>
    decreases list.len(),
{
    if list.len() == 0 {
        Seq::empty()
    } else {
        let front = years_of(list.drop_last(), around);
        let y = stamp_year(list.last());
        if front.contains(y) {
            front
        } else {
            insert_year(front, y, around)
        }
    }
}

/// For each year the timestamp nearest its start.
pub open spec fn year_picks(list: Seq<Seq<char>>, years: Seq<int>) -> Seq<Seq<char>> {
    Seq::new(years.len(), |i: int| pick_of_year(list, years[i])->Some_0)
}

/// The nearest few of a list.
pub open spec fn window_of(list: Seq<Seq<char>>) -> Seq<Seq<char>> {
    if list.len() < PIN_CANDIDATES {
        list
    } else {
        list.take(PIN_CANDIDATES as int)
    }
}

/// The order in which the snapshots of an index are tried: the nearest few,
/// then one per calendar year over the rest of the archive, nearest year
/// first.
pub open spec fn candidates(rows: Seq<Seq<Seq<char>>>, around: Seq<char>) -> Seq<Seq<char>> {
    match stamp_day(around) {
        None => Seq::empty(),
        Some(day) => {
            let list = nearest_first(row_stamps(rows, rows.len()), day);
            append_new(window_of(list), year_picks(list, years_of(list, year_of_day(day))))
        },
    }
}

/// The day that a timestamp begins with.
fn day_of_stamp(ts: &str) -> (r: Option<i64>)
    ensures
        r is Some <==> stamp_day(ts@) is Some,
        r matches Some(d) ==> stamp_day(ts@) == Some(d as int) && -100_000_000 < d < 100_000_000,
{
    let cs = chars_of(ts);
    if cs.len() < 8 {
        return None;
    }
    short_integer(head(cs.as_slice(), 8))
}

fn distance_of(ts: &str, around: i64) -> (r: i64)
    requires
        stamp_day(ts@) is Some,
        -100_000_000 < around < 100_000_000,
    ensures
        r == distance(ts@, around as int),
{
    let d: i64 = day_of_stamp(ts).unwrap();
    if d < around {
        around - d
    } else {
        d - around
    }
}

/// Every timestamp of the list begins with a day.
pub open spec fn dated(list: Seq<Seq<char>>) -> bool {
    forall|i: int| 0 <= i < list.len() ==> stamp_day(#[trigger] list[i]) is Some
}

fn is_nearer(a: &str, b: &str, around: i64) -> (r: bool)
    requires
        stamp_day(a@) is Some,
        stamp_day(b@) is Some,
        -100_000_000 < around < 100_000_000,
    ensures
        r == nearer(a@, b@, around as int),
{
    let x: i64 = distance_of(a, around);
    let y: i64 = distance_of(b, around);
    x < y || (x == y && comes_before(a, b))
}

proof fn lemma_insert_near(list: Seq<Seq<char>>, x: Seq<char>, around: int)
    ensures
        insert_near(list, x, around).len() == list.len() + 1,
        forall|y: Seq<char>| #[trigger]
            insert_near(list, x, around).contains(y) <==> (list.contains(y) || y == x),
        dated(list) && stamp_day(x) is Some ==> dated(insert_near(list, x, around)),
    decreases list.len(),
{
    let r = insert_near(list, x, around);
    if list.len() > 0 && nearer(x, list.last(), around) {
        let front = list.drop_last();
        lemma_insert_near(front, x, around);
        let inner = insert_near(front, x, around);
        assert forall|y: Seq<char>| #[trigger] r.contains(y) <==> (list.contains(y) || y == x) by {
            lemma_contains_last(r, y);
            lemma_contains_last(list, y);
            assert(r.drop_last() =~= inner);
            assert(inner.contains(y) <==> (front.contains(y) || y == x));
        }
        if dated(list) && stamp_day(x) is Some {
            assert(dated(front)) by {
                assert forall|i: int| 0 <= i < front.len() implies stamp_day(
                    #[trigger] front[i],
                ) is Some by {
                    assert(front[i] == list[i]);
                }
            }
            assert forall|i: int| 0 <= i < r.len() implies stamp_day(#[trigger] r[i]) is Some by {
                if i < inner.len() {
                    assert(r[i] == inner[i]);
                } else {
                    assert(r[i] == list[list.len() - 1]);
                }
            }
        }
    } else {
        assert forall|y: Seq<char>| #[trigger] r.contains(y) <==> (list.contains(y) || y == x) by {
            lemma_contains_last(r, y);
            assert(r.drop_last() =~= list);
        }
        if dated(list) && stamp_day(x) is Some {
            assert forall|i: int| 0 <= i < r.len() implies stamp_day(#[trigger] r[i]) is Some by {
                if i < list.len() {
                    assert(r[i] == list[i]);
                }
            }
        }
    }
}

/// Puts a timestamp at its place.
fn put_stamp(list: &mut Vec<String>, x: String, around: i64)
    requires
        dated(texts(old(list)@)),
        stamp_day(x@) is Some,
        -100_000_000 < around < 100_000_000,
    ensures
        texts(final(list)@) == insert_near(texts(old(list)@), x@, around as int),
        dated(texts(final(list)@)),
{
    let ghost all = texts(list@);
    let ghost near = around as int;
    let mut p: usize = list.len();
    assert(all.take(p as int) == all);
    assert(insert_near(all, x@, near) + all.skip(p as int) =~= insert_near(all, x@, near));
    loop
        invariant
            all == texts(list@),
            dated(all),
            stamp_day(x@) is Some,
            -100_000_000 < around < 100_000_000,
            near == around,
            p <= list@.len(),
            insert_near(all, x@, near) == insert_near(all.take(p as int), x@, near) + all.skip(
                p as int,
            ),
        ensures
            p <= list@.len(),
            all == texts(list@),
            insert_near(all, x@, near) == all.take(p as int).push(x@) + all.skip(p as int),
        decreases p,
    {
        let ghost part = all.take(p as int);
        if p == 0 {
            assert(insert_near(part, x@, near) == part.push(x@));
            break;
        }
        assert(all[p - 1] == list@[p - 1]@);
        assert(part.last() == all[p - 1]);
        if !is_nearer(x.as_str(), list[p - 1].as_str(), around) {
            assert(insert_near(part, x@, near) == part.push(x@));
            break;
        }
        assert(part.drop_last() == all.take(p - 1));
        assert(insert_near(all.take(p - 1), x@, near).push(part.last()) + all.skip(p as int)
            =~= insert_near(all.take(p - 1), x@, near) + all.skip(p - 1));
        p = p - 1;
    }
    let ghost part = all.take(p as int);
    proof {
        lemma_insert_near(all, x@, near);
    }
    list.insert(p, x);
    assert(texts(list@) =~= part.push(x@) + all.skip(p as int));
}

/// The timestamps of the index, each once, nearest first.
fn order_stamps(rows: &Vec<Vec<String>>, around: i64) -> (r: Vec<String>)
    requires
        -100_000_000 < around < 100_000_000,
    ensures
        texts(r@) == nearest_first(row_stamps(rows_model(rows@), rows@.len()), around as int),
        dated(texts(r@)),
{
    let ghost all = rows_model(rows@);
    let ghost near = around as int;
    let mut r: Vec<String> = Vec::new();
    assert(texts(r@) =~= Seq::<Seq<char>>::empty());
    for i in 0..rows.len()
        invariant
            all == rows_model(rows@),
            near == around,
            -100_000_000 < around < 100_000_000,
            texts(r@) == nearest_first(row_stamps(all, i as nat), near),
            dated(texts(r@)),
    {
        if i > 0 {
            let row = &rows[i];
            assert(all[i as int] == texts(row@));
            let ghost front = row_stamps(all, i as nat);
            if row.len() > 1 {
                let ts = &row[1];
                assert(all[i as int][1] == ts@);
                if day_of_stamp(ts.as_str()).is_some() {
                    assert(row_stamps(all, (i + 1) as nat) == front.push(ts@));
                    assert(front.push(ts@).drop_last() =~= front);
                    if !contains_text(&r, ts.as_str()) {
                        put_stamp(&mut r, ts.clone(), around);
                    }
                }
            }
        }
    }
    r
}

fn year_of_stamp(ts: &str) -> (r: i64)
    requires
        stamp_day(ts@) is Some,
    ensures
        r == stamp_year(ts@),
        -10_000 <= r <= 10_000,
{
    let d: i64 = day_of_stamp(ts).unwrap();
    year_of(d)
}

fn year_of(d: i64) -> (r: i64)
    requires
        -100_000_000 < d < 100_000_000,
    ensures
        r == year_of_day(d as int),
        -10_000 <= r <= 10_000,
{
    if d < 0 {
        -((-d) / 10_000)
    } else {
        d / 10_000
    }
}

fn start_distance(ts: &str) -> (r: i64)
    requires
        stamp_day(ts@) is Some,
    ensures
        r == from_start(ts@),
{
    let d: i64 = day_of_stamp(ts).unwrap();
    let y: i64 = year_of(d);
    let n: i64 = d - y * 10_000 - 101;
    if n < 0 {
        -n
    } else {
        n
    }
}

/// The index of the timestamp of a year nearest the year's start.
fn pick_year(list: &Vec<String>, year: i64) -> (r: Option<usize>)
    requires
        dated(texts(list@)),
    ensures
        r is Some <==> pick_of_year(texts(list@), year as int) is Some,
        r matches Some(i) ==> i < list@.len() && pick_of_year(texts(list@), year as int) == Some(
            list@[i as int]@,
        ),
{
    let ghost all = texts(list@);
    let ghost y = year as int;
    let mut best: Option<usize> = None;
    assert(all.take(0) =~= Seq::<Seq<char>>::empty());
    for i in 0..list.len()
        invariant
            all == texts(list@),
            dated(all),
            y == year,
            best is Some <==> pick_of_year(all.take(i as int), y) is Some,
            best matches Some(b) ==> b < i && pick_of_year(all.take(i as int), y) == Some(
                list@[b as int]@,
            ),
    {
        assert(all.take(i + 1).drop_last() == all.take(i as int));
        assert(all.take(i + 1).last() == list@[i as int]@);
        assert(all[i as int] == list@[i as int]@);
        if year_of_stamp(list[i].as_str()) == year {
            match best {
                None => {
                    best = Some(i);
                },
                Some(b) => {
                    assert(all[b as int] == list@[b as int]@);
                    if start_distance(list[i].as_str()) < start_distance(list[b].as_str()) {
                        best = Some(i);
                    }
                },
            }
        }
    }
    assert(all.take(list@.len() as int) == all);
    best
}

/// What a list of years is.
pub open spec fn year_numbers(years: Seq<i64>) -> Seq<int> {
    Seq::new(years.len(), |i: int| years[i] as int)
}

fn holds_year(years: &Vec<i64>, y: i64) -> (r: bool)
    ensures
        r == year_numbers(years@).contains(y as int),
{
    for i in 0..years.len()
        invariant
            forall|j: int| 0 <= j < i ==> year_numbers(years@)[j] != y,
    {
        if years[i] == y {
            assert(year_numbers(years@)[i as int] == y);
            return true;
        }
    }
    false
}

/// Every year of the list is small.
pub open spec fn small_years(years: Seq<i64>) -> bool {
    forall|i: int| 0 <= i < years.len() ==> -10_000 <= #[trigger] years[i] <= 10_000
}

fn put_year(years: &mut Vec<i64>, y: i64, around: i64)
    requires
        small_years(old(years)@),
        -10_000 <= y <= 10_000,
        -10_000 <= around <= 10_000,
    ensures
        year_numbers(final(years)@) == insert_year(
            year_numbers(old(years)@),
            y as int,
            around as int,
        ),
        small_years(final(years)@),
{
    let ghost all = year_numbers(years@);
    let ghost near = around as int;
    let mut p: usize = years.len();
    assert(all.take(p as int) == all);
    assert(insert_year(all, y as int, near) + all.skip(p as int) =~= insert_year(
        all,
        y as int,
        near,
    ));
    loop
        invariant
            all == year_numbers(years@),
            small_years(years@),
            -10_000 <= y <= 10_000,
            -10_000 <= around <= 10_000,
            near == around,
            p <= years@.len(),
            insert_year(all, y as int, near) == insert_year(all.take(p as int), y as int, near)
                + all.skip(p as int),
        ensures
            p <= years@.len(),
            all == year_numbers(years@),
            insert_year(all, y as int, near) == all.take(p as int).push(y as int) + all.skip(
                p as int,
            ),
        decreases p,
    {
        let ghost part = all.take(p as int);
        if p == 0 {
            assert(insert_year(part, y as int, near) == part.push(y as int));
            break;
        }
        let z: i64 = years[p - 1];
        assert(part.last() == z);
        let a: i64 = if y < around {
            around - y
        } else {
            y - around
        };
        let b: i64 = if z < around {
            around - z
        } else {
            z - around
        };
        if !(a < b || (a == b && y < z)) {
            assert(insert_year(part, y as int, near) == part.push(y as int));
            break;
        }
        assert(part.drop_last() == all.take(p - 1));
        assert(insert_year(all.take(p - 1), y as int, near).push(part.last()) + all.skip(p as int)
            =~= insert_year(all.take(p - 1), y as int, near) + all.skip(p - 1));
        p = p - 1;
    }
    let ghost part = all.take(p as int);
    years.insert(p, y);
    assert(year_numbers(years@) =~= part.push(y as int) + all.skip(p as int));
}

proof fn lemma_insert_year(list: Seq<int>, y: int, around: int)
    ensures
        forall|z: int| #[trigger]
            insert_year(list, y, around).contains(z) <==> (list.contains(z) || z == y),
    decreases list.len(),
{
    let r = insert_year(list, y, around);
    if list.len() > 0 && year_before(y, list.last(), around) {
        let front = list.drop_last();
        lemma_insert_year(front, y, around);
        let inner = insert_year(front, y, around);
        assert forall|z: int| #[trigger] r.contains(z) <==> (list.contains(z) || z == y) by {
            lemma_contains_last(r, z);
            lemma_contains_last(list, z);
            assert(r.drop_last() =~= inner);
            assert(inner.contains(z) <==> (front.contains(z) || z == y));
        }
    } else {
        assert forall|z: int| #[trigger] r.contains(z) <==> (list.contains(z) || z == y) by {
            lemma_contains_last(r, z);
            assert(r.drop_last() =~= list);
        }
    }
}

/// Each year of the list has a pick, which is of that year.
proof fn lemma_picks(list: Seq<Seq<char>>, around: int)
    ensures
        forall|y: int| #[trigger]
            years_of(list, around).contains(y) <==> pick_of_year(list, y) is Some,
        forall|y: int|
            (#[trigger] pick_of_year(list, y)) is Some ==> list.contains(
                pick_of_year(list, y)->Some_0,
            ) && stamp_year(pick_of_year(list, y)->Some_0) == y,
    decreases list.len(),
{
    if list.len() > 0 {
        let front = list.drop_last();
        lemma_picks(front, around);
        let years = years_of(front, around);
        let last_year = stamp_year(list.last());
        lemma_insert_year(years, last_year, around);
        assert forall|y: int| #[trigger]
            years_of(list, around).contains(y) <==> pick_of_year(list, y) is Some by {
            assert(years.contains(y) <==> pick_of_year(front, y) is Some);
            assert(insert_year(years, last_year, around).contains(y) <==> (years.contains(y) || y
                == last_year));
        }
        assert forall|y: int| (#[trigger] pick_of_year(list, y)) is Some implies list.contains(
            pick_of_year(list, y)->Some_0,
        ) && stamp_year(pick_of_year(list, y)->Some_0) == y by {
            let p = pick_of_year(list, y)->Some_0;
            lemma_contains_last(list, p);
            assert(pick_of_year(front, y) is Some ==> front.contains(
                pick_of_year(front, y)->Some_0,
            ));
        }
    }
}

/// CDX rows in the order snapshots are tried: the `PIN_CANDIDATES` nearest
/// `around`, then one per calendar year (the snapshot nearest that year's
/// start) over the rest of the archive, nearest year first.
pub fn candidate_order(rows: &Vec<Vec<String>>, around: &str) -> (r: Vec<String>)
    ensures
        texts(r@) == candidates(rows_model(rows@), around@),
{
    let mut order: Vec<String> = Vec::new();
    assert(texts(order@) =~= Seq::<Seq<char>>::empty());
    let around_day: i64 = match day_of_stamp(around) {
        Some(d) => d,
        None => {
            return order;
        },
    };
    let list = order_stamps(rows, around_day);
    let ghost all = texts(list@);
    let ghost picked = window_of(all);
    let size: usize = if list.len() < PIN_CANDIDATES {
        list.len()
    } else {
        PIN_CANDIDATES
    };
    assert(picked =~= all.take(size as int));
    for i in 0..size
        invariant
            size <= list@.len(),
            all == texts(list@),
            texts(order@) == all.take(i as int),
    {
        proof {
            lemma_push_text(order@, list@[i as int]);
            lemma_take_next(all, i as int);
        }
        order.push(list[i].clone());
    }
    let around_year: i64 = year_of(around_day);
    let ghost near = around_year as int;
    let mut years: Vec<i64> = Vec::new();
    assert(year_numbers(years@) =~= years_of(all.take(0), near));
    for i in 0..list.len()
        invariant
            all == texts(list@),
            dated(all),
            near == around_year,
            -10_000 <= around_year <= 10_000,
            small_years(years@),
            year_numbers(years@) == years_of(all.take(i as int), near),
    {
        assert(all.take(i + 1).drop_last() == all.take(i as int));
        assert(all.take(i + 1).last() == list@[i as int]@);
        assert(all[i as int] == list@[i as int]@);
        let y: i64 = year_of_stamp(list[i].as_str());
        if !holds_year(&years, y) {
            put_year(&mut years, y, around_year);
        }
    }
    assert(all.take(list@.len() as int) == all);
    let ghost sweep = years_of(all, near);
    let ghost picks = year_picks(all, sweep);
    assert(append_new(picked, picks.take(0)) == picked);
    for i in 0..years.len()
        invariant
            all == texts(list@),
            dated(all),
            sweep == years_of(all, near),
            year_numbers(years@) == sweep,
            picks == year_picks(all, sweep),
            texts(order@) == append_new(picked, picks.take(i as int)),
    {
        assert(picks.take(i + 1).drop_last() == picks.take(i as int));
        assert(picks.take(i + 1).last() == picks[i as int]);
        proof {
            lemma_picks(all, near);
            assert(sweep[i as int] == years@[i as int]);
            assert(sweep.contains(years@[i as int] as int));
        }
        if let Some(k) = pick_year(&list, years[i]) {
            add_new(&mut order, &list[k]);
        }
    }
    assert(picks.take(years@.len() as int) == picks);
    order
}

// ---------------------------------------------------------------------------
// Laws
// ---------------------------------------------------------------------------

/// No timestamp of the list is nearer than one before it.
pub open spec fn by_distance(list: Seq<Seq<char>>, around: int) -> bool {
    forall|i: int, j: int|
        0 <= i < j < list.len() ==> !nearer(#[trigger] list[j], #[trigger] list[i], around)
}

proof fn lemma_nearer(a: Seq<char>, b: Seq<char>, c: Seq<char>, around: int)
    ensures
        nearer(a, b, around) && nearer(b, c, around) ==> nearer(a, c, around),
        nearer(a, b, around) ==> !nearer(b, a, around),
        a == b || nearer(a, b, around) || nearer(b, a, around),
{
    lemma_before_total(a, b);
    if before(a, b) {
        lemma_before_asymmetric(a, b);
        if before(b, c) {
            lemma_before_transitive(a, b, c);
        }
    }
}

proof fn lemma_insert_near_ordered(list: Seq<Seq<char>>, x: Seq<char>, around: int)
    requires
        by_distance(list, around),
        !list.contains(x),
        list.no_duplicates(),
    ensures
        by_distance(insert_near(list, x, around), around),
        insert_near(list, x, around).no_duplicates(),
    decreases list.len(),
{
    let r = insert_near(list, x, around);
    lemma_insert_near(list, x, around);
    if list.len() > 0 && nearer(x, list.last(), around) {
        let front = list.drop_last();
        assert(by_distance(front, around)) by {
            assert forall|i: int, j: int| 0 <= i < j < front.len() implies !nearer(
                #[trigger] front[j],
                #[trigger] front[i],
                around,
            ) by {
                assert(front[i] == list[i] && front[j] == list[j]);
            }
        }
        assert(!front.contains(x)) by {
            lemma_contains_last(list, x);
        }
        lemma_insert_near_ordered(front, x, around);
        lemma_insert_near(front, x, around);
        let inner = insert_near(front, x, around);
        let l = list.last();
        assert forall|i: int, j: int| 0 <= i < j < r.len() implies !nearer(
            #[trigger] r[j],
            #[trigger] r[i],
            around,
        ) by {
            if j == r.len() - 1 {
                assert(inner.contains(inner[i]));
                if inner[i] != x {
                    let k = choose|k: int| 0 <= k < front.len() && front[k] == inner[i];
                    assert(front[k] == list[k]);
                    assert(!nearer(list[list.len() - 1], list[k], around));
                } else {
                    lemma_nearer(x, l, x, around);
                }
            } else {
                assert(r[i] == inner[i] && r[j] == inner[j]);
            }
        }
        assert(!inner.contains(l)) by {
            if front.contains(l) {
                let k = choose|k: int| 0 <= k < front.len() && front[k] == l;
                assert(list[k] == list[list.len() - 1]);
            }
            if l == x {
                assert(list[list.len() - 1] == x);
            }
        }
        assert forall|i: int, j: int| 0 <= i < r.len() && 0 <= j < r.len() && i != j implies r[i]
            != r[j] by {
            if i < inner.len() && j < inner.len() {
                assert(r[i] == inner[i] && r[j] == inner[j]);
            } else if i < inner.len() {
                assert(inner.contains(inner[i]));
            } else {
                assert(inner.contains(inner[j]));
            }
        }
    } else {
        assert forall|i: int, j: int| 0 <= i < j < r.len() implies !nearer(
            #[trigger] r[j],
            #[trigger] r[i],
            around,
        ) by {
            if j == r.len() - 1 {
                let l = list.last();
                if nearer(x, list[i], around) {
                    lemma_nearer(x, list[i], l, around);
                    lemma_nearer(list[i], l, x, around);
                    if i < list.len() - 1 {
                        assert(!nearer(list[list.len() - 1], list[i], around));
                        assert(list[i] != list[list.len() - 1]);
                    }
                }
            } else {
                assert(r[i] == list[i] && r[j] == list[j]);
            }
        }
        assert forall|i: int, j: int| 0 <= i < r.len() && 0 <= j < r.len() && i != j implies r[i]
            != r[j] by {
            if i == list.len() {
                assert(list.contains(list[j]));
            } else if j == list.len() {
                assert(list.contains(list[i]));
            } else {
                assert(list[i] != list[j]);
            }
        }
    }
}

proof fn lemma_nearest_first(list: Seq<Seq<char>>, around: int)
    ensures
        by_distance(nearest_first(list, around), around),
        nearest_first(list, around).no_duplicates(),
        forall|y: Seq<char>| #[trigger]
            nearest_first(list, around).contains(y) <==> list.contains(y),
    decreases list.len(),
{
    if list.len() > 0 {
        let front = nearest_first(list.drop_last(), around);
        lemma_nearest_first(list.drop_last(), around);
        if !front.contains(list.last()) {
            lemma_insert_near_ordered(front, list.last(), around);
            lemma_insert_near(front, list.last(), around);
        }
        assert forall|y: Seq<char>| #[trigger]
            nearest_first(list, around).contains(y) <==> list.contains(y) by {
            lemma_contains_last(list, y);
            assert(front.contains(y) <==> list.drop_last().contains(y));
        }
    }
}

/// No snapshot is tried twice.
pub proof fn candidates_do_not_repeat(rows: Seq<Seq<Seq<char>>>, around: Seq<char>)
    ensures
        candidates(rows, around).no_duplicates(),
{
    if stamp_day(around) is Some {
        let day = stamp_day(around)->Some_0;
        let stamps = row_stamps(rows, rows.len());
        let list = nearest_first(stamps, day);
        lemma_nearest_first(stamps, day);
        assert(window_of(list).no_duplicates());
        lemma_append_new(window_of(list), year_picks(list, years_of(list, year_of_day(day))));
    }
}

/// Every snapshot that is tried is one of the index.
pub proof fn candidates_are_in_the_index(
    rows: Seq<Seq<Seq<char>>>,
    around: Seq<char>,
    ts: Seq<char>,
)
    requires
        candidates(rows, around).contains(ts),
    ensures
        row_stamps(rows, rows.len()).contains(ts),
{
    let day = stamp_day(around)->Some_0;
    let stamps = row_stamps(rows, rows.len());
    let list = nearest_first(stamps, day);
    let years = years_of(list, year_of_day(day));
    let picks = year_picks(list, years);
    lemma_nearest_first(stamps, day);
    lemma_append_new(window_of(list), picks);
    if window_of(list).contains(ts) {
        let k = choose|k: int| 0 <= k < window_of(list).len() && window_of(list)[k] == ts;
        assert(list[k] == ts);
        assert(list.contains(ts));
    } else {
        lemma_picks(list, year_of_day(day));
        let k = choose|k: int| 0 <= k < picks.len() && picks[k] == ts;
        assert(years.contains(years[k]));
        assert(pick_of_year(list, years[k]) is Some);
        assert(list.contains(ts));
    }
}

/// The nearest snapshots are tried first: those that begin the order come
/// nearest first, and no snapshot of the index is nearer than one of them
/// without being among them.
pub proof fn nearest_candidates_come_first(
    rows: Seq<Seq<Seq<char>>>,
    around: Seq<char>,
    i: int,
    ts: Seq<char>,
)
    requires
        stamp_day(around) is Some,
        0 <= i < PIN_CANDIDATES,
        i < candidates(rows, around).len(),
        row_stamps(rows, rows.len()).contains(ts),
        nearer(ts, candidates(rows, around)[i], stamp_day(around)->Some_0),
    ensures
        exists|j: int| 0 <= j < i && candidates(rows, around)[j] == ts,
{
    let day = stamp_day(around)->Some_0;
    let stamps = row_stamps(rows, rows.len());
    let list = nearest_first(stamps, day);
    let years = years_of(list, year_of_day(day));
    let picks = year_picks(list, years);
    let order = candidates(rows, around);
    lemma_nearest_first(stamps, day);
    lemma_append_new(window_of(list), picks);
    assert(list.contains(ts));
    let k = choose|k: int| 0 <= k < list.len() && list[k] == ts;
    if i >= window_of(list).len() {
        candidates_do_not_repeat(rows, around);
        candidates_are_in_the_index(rows, around, order[i]);
        assert(window_of(list) == list);
        assert(list.contains(order[i]));
        let m = choose|m: int| 0 <= m < list.len() && list[m] == order[i];
        assert(order[m] == window_of(list)[m]);
    } else {
        assert(order[i] == window_of(list)[i]);
        lemma_nearer(ts, list[i], ts, day);
        if k >= i {
            if k > i {
                assert(!nearer(list[k], list[i], day));
            }
        } else {
            assert(order[k] == window_of(list)[k]);
        }
    }
}

/// Every year of the index is tried.
pub proof fn every_year_is_tried(rows: Seq<Seq<Seq<char>>>, around: Seq<char>, ts: Seq<char>)
    requires
        stamp_day(around) is Some,
        row_stamps(rows, rows.len()).contains(ts),
    ensures
        exists|i: int|
            0 <= i < candidates(rows, around).len() && stamp_year(
                #[trigger] candidates(rows, around)[i],
            ) == stamp_year(ts),
{
    let day = stamp_day(around)->Some_0;
    let near = year_of_day(day);
    let stamps = row_stamps(rows, rows.len());
    let list = nearest_first(stamps, day);
    let years = years_of(list, near);
    let picks = year_picks(list, years);
    lemma_nearest_first(stamps, day);
    lemma_picks(list, near);
    lemma_year_listed(list, near, ts);
    let y = stamp_year(ts);
    let k = choose|k: int| 0 <= k < years.len() && years[k] == y;
    assert(picks[k] == pick_of_year(list, y)->Some_0);
    assert(pick_of_year(list, y) is Some);
    lemma_append_new(window_of(list), picks);
    assert(picks.contains(picks[k]));
    assert(candidates(rows, around).contains(picks[k]));
}

proof fn lemma_year_listed(list: Seq<Seq<char>>, around: int, ts: Seq<char>)
    requires
        list.contains(ts),
    ensures
        years_of(list, around).contains(stamp_year(ts)),
    decreases list.len(),
{
    let front = list.drop_last();
    lemma_contains_last(list, ts);
    lemma_insert_year(years_of(front, around), stamp_year(list.last()), around);
    if front.contains(ts) {
        lemma_year_listed(front, around, ts);
    }
}

}

//! Times as RFC 3339 texts.

use vstd::prelude::*;
use vstd::string::*;

use crate::calendar::{
    civil_date, date_of, day_number, is_date, lemma_civil_date, lemma_four_digit_year,
    lemma_later_day,
};
use crate::number::{decimal_value, lemma_padded_four, lemma_padded_two, padded, padded_text};
use crate::order::{before, lemma_before_behind, lemma_before_front, lemma_before_irreflexive};
use crate::text::is_digit;

verus! {

/// The UTC time of a number of seconds since 1970-01-01T00:00:00Z, as RFC 3339
/// with second precision.
pub open spec fn rfc3339(secs: int) -> Seq<char> {
    let date = civil_date(secs / 86_400);
    let rem = secs % 86_400;
    padded(date.0, 4) + "-"@ + padded(date.1, 2) + "-"@ + padded(date.2, 2) + "T"@ + padded(
        rem / 3600,
        2,
    ) + ":"@ + padded((rem % 3600) / 60, 2) + ":"@ + padded(rem % 60, 2) + "Z"@
}

/// The UTC time of a number of seconds since the epoch.
pub fn rfc3339_from_unix(secs: i64) -> (r: String)
    ensures
        r@ == rfc3339(secs as int),
{
    let days: i64 = secs.checked_div_euclid(86_400).unwrap();
    let rem: i64 = secs.checked_rem_euclid(86_400).unwrap();
    let (y, mo, d) = date_of(days);
    let h: i64 = rem / 3600;
    let m: i64 = (rem % 3600) / 60;
    let s: i64 = rem % 60;
    let mut r = padded_text(y, 4);
    r.append("-");
    r.append(padded_text(mo, 2).as_str());
    r.append("-");
    r.append(padded_text(d, 2).as_str());
    r.append("T");
    r.append(padded_text(h, 2).as_str());
    r.append(":");
    r.append(padded_text(m, 2).as_str());
    r.append(":");
    r.append(padded_text(s, 2).as_str());
    r.append("Z");
    r
}

/// The seconds since the epoch on the machine's clock; 0 for a clock set
/// before it.
///
/// `std::time::SystemTime::now`. Nothing is stated of the result: it depends
/// on the time.
#[verifier::external_body]
fn unix_seconds() -> (r: i64) {
    std::time::SystemTime::now().duration_since(std::time::UNIX_EPOCH).map(
        |d| d.as_secs() as i64,
    ).unwrap_or(0)
}

/// The current UTC time as RFC 3339 with second precision.
pub fn rfc3339_now() -> (r: String)
    ensures
        exists|secs: i64| r@ == #[trigger] rfc3339(secs as int),
{
    let secs: i64 = unix_seconds();
    let r = rfc3339_from_unix(secs);
    assert(r@ == rfc3339(secs as int));
    r
}

// ---------------------------------------------------------------------------
// Laws
// ---------------------------------------------------------------------------

/// A time in the years 0000 to 9999.
pub open spec fn four_digit_time(secs: int) -> bool {
    -62_167_219_200 <= secs <= 253_402_300_799
}

/// The fields of a time: year, month, day, hour, minute and second.
spec fn fields(secs: int) -> (int, int, int, int, int, int) {
    let date = civil_date(secs / 86_400);
    let rem = secs % 86_400;
    (date.0, date.1, date.2, rem / 3600, (rem % 3600) / 60, rem % 60)
}

proof fn lemma_fields(secs: int)
    requires
        four_digit_time(secs),
    ensures
        ({
            let f = fields(secs);
            &&& 0 <= f.0 <= 9999
            &&& 1 <= f.1 <= 12
            &&& 1 <= f.2 <= 31
            &&& 0 <= f.3 < 24
            &&& 0 <= f.4 < 60
            &&& 0 <= f.5 < 60
        }),
{
    lemma_civil_date(secs / 86_400);
    lemma_four_digit_year(secs / 86_400);
}

/// The text of a time with `mark` between two fields.
spec fn then_field(n: int, mark: Seq<char>, rest: Seq<char>) -> Seq<char> {
    padded(n, 2) + (mark + rest)
}

spec fn from_second(s: int) -> Seq<char> {
    padded(s, 2) + "Z"@
}

spec fn from_month(f: (int, int, int, int, int, int)) -> Seq<char> {
    then_field(
        f.1,
        "-"@,
        then_field(
            f.2,
            "T"@,
            then_field(f.3, ":"@, then_field(f.4, ":"@, from_second(f.5))),
        ),
    )
}

proof fn lemma_by_fields(secs: int)
    ensures
        rfc3339(secs) == padded(fields(secs).0, 4) + ("-"@ + from_month(fields(secs))),
{
    assert(rfc3339(secs) =~= padded(fields(secs).0, 4) + ("-"@ + from_month(fields(secs))));
}

proof fn lemma_two_digits_order(a: int, b: int)
    requires
        0 <= a < b < 100,
    ensures
        before(padded(a, 2), padded(b, 2)),
        padded(a, 2).len() == padded(b, 2).len(),
{
    lemma_padded_two(a);
    lemma_padded_two(b);
    reveal_with_fuel(before, 3);
    assert(padded(a, 2).skip(1)[0] == padded(a, 2)[1]);
    assert(padded(b, 2).skip(1)[0] == padded(b, 2)[1]);
}

proof fn lemma_digits(n: int)
    requires
        0 <= n < 10_000,
    ensures
        n / 100 / 10 == n / 1000,
        n % 100 / 10 == n / 10 % 10,
        n % 100 % 10 == n % 10,
{
}

/// The first two digits of a number of four, and the last two.
proof fn lemma_halves(n: int)
    requires
        0 <= n < 10_000,
    ensures
        padded(n, 4) == padded(n / 100, 2) + padded(n % 100, 2),
{
    lemma_padded_four(n);
    lemma_padded_two(n / 100);
    lemma_padded_two(n % 100);
    lemma_digits(n);
    assert(padded(n, 4) =~= padded(n / 100, 2) + padded(n % 100, 2));
}

proof fn lemma_four_digits_order(a: int, b: int)
    requires
        0 <= a < b < 10_000,
    ensures
        before(padded(a, 4), padded(b, 4)),
        padded(a, 4).len() == padded(b, 4).len(),
{
    lemma_halves(a);
    lemma_halves(b);
    lemma_padded_two(a / 100);
    lemma_padded_two(b / 100);
    lemma_padded_two(a % 100);
    lemma_padded_two(b % 100);
    if a / 100 == b / 100 {
        lemma_two_digits_order(a % 100, b % 100);
        lemma_before_behind(padded(a / 100, 2), padded(a % 100, 2), padded(b % 100, 2));
    } else {
        lemma_two_digits_order(a / 100, b / 100);
        lemma_before_front(
            padded(a / 100, 2),
            padded(b / 100, 2),
            padded(a % 100, 2),
            padded(b % 100, 2),
        );
    }
}

proof fn lemma_field_order(a: int, b: int, mark: Seq<char>, p: Seq<char>, q: Seq<char>)
    requires
        0 <= a < 100,
        0 <= b < 100,
        a < b || (a == b && before(p, q)),
    ensures
        before(then_field(a, mark, p), then_field(b, mark, q)),
{
    if a < b {
        lemma_two_digits_order(a, b);
        lemma_before_front(padded(a, 2), padded(b, 2), mark + p, mark + q);
    } else {
        lemma_before_behind(mark, p, q);
        lemma_before_behind(padded(a, 2), mark + p, mark + q);
    }
}

/// A later time has a later text: in the years 0000 to 9999 the order of the
/// texts is the order of the times, so that no two times have the same text.
pub proof fn later_times_have_later_texts(a: int, b: int)
    requires
        four_digit_time(a),
        four_digit_time(b),
        a < b,
    ensures
        before(rfc3339(a), rfc3339(b)),
        rfc3339(a) != rfc3339(b),
{
    let x = fields(a);
    let y = fields(b);
    lemma_fields(a);
    lemma_fields(b);
    lemma_by_fields(a);
    lemma_by_fields(b);
    if a / 86_400 < b / 86_400 {
        lemma_later_day(a / 86_400, b / 86_400);
    } else {
        assert(a / 86_400 == b / 86_400);
        assert(a % 86_400 < b % 86_400);
    }
    let same_day = (x.0, x.1, x.2) == (y.0, y.1, y.2);
    let same_hour = same_day && x.3 == y.3;
    let same_minute = same_hour && x.4 == y.4;
    if same_day {
        assert(a / 86_400 == b / 86_400) by {
            if a / 86_400 < b / 86_400 {
                lemma_later_day(a / 86_400, b / 86_400);
            }
        }
        assert(x.3 < y.3 || (x.3 == y.3 && (x.4 < y.4 || (x.4 == y.4 && x.5 < y.5))));
    }
    if same_minute {
        lemma_two_digits_order(x.5, y.5);
        lemma_before_front(padded(x.5, 2), padded(y.5, 2), "Z"@, "Z"@);
    }
    let minute_x = then_field(x.4, ":"@, from_second(x.5));
    let minute_y = then_field(y.4, ":"@, from_second(y.5));
    if same_hour {
        lemma_field_order(x.4, y.4, ":"@, from_second(x.5), from_second(y.5));
    }
    let hour_x = then_field(x.3, ":"@, minute_x);
    let hour_y = then_field(y.3, ":"@, minute_y);
    if same_day {
        lemma_field_order(x.3, y.3, ":"@, minute_x, minute_y);
    }
    let day_x = then_field(x.2, "T"@, hour_x);
    let day_y = then_field(y.2, "T"@, hour_y);
    if x.0 == y.0 && x.1 == y.1 {
        lemma_field_order(x.2, y.2, "T"@, hour_x, hour_y);
    }
    if x.0 == y.0 {
        lemma_field_order(x.1, y.1, "-"@, day_x, day_y);
        lemma_before_behind("-"@, from_month(x), from_month(y));
        lemma_before_behind(padded(x.0, 4), "-"@ + from_month(x), "-"@ + from_month(y));
    } else {
        lemma_four_digits_order(x.0, y.0);
        lemma_before_front(
            padded(x.0, 4),
            padded(y.0, 4),
            "-"@ + from_month(x),
            "-"@ + from_month(y),
        );
    }
    lemma_before_irreflexive(rfc3339(a));
}

/// A text of the form `YYYY-MM-DDThh:mm:ssZ`.
pub open spec fn is_timestamp(s: Seq<char>) -> bool {
    &&& s.len() == 20
    &&& forall|i: int|
        0 <= i < 20 ==> if i == 4 || i == 7 {
            #[trigger] s[i] == '-'
        } else if i == 10 {
            s[i] == 'T'
        } else if i == 13 || i == 16 {
            s[i] == ':'
        } else if i == 19 {
            s[i] == 'Z'
        } else {
            is_digit(s[i])
        }
}

/// In the years 0000 to 9999 a time has the form `YYYY-MM-DDThh:mm:ssZ`.
pub proof fn times_have_one_form(secs: int)
    requires
        four_digit_time(secs),
    ensures
        is_timestamp(rfc3339(secs)),
{
    let f = fields(secs);
    lemma_fields(secs);
    lemma_padded_four(f.0);
    lemma_padded_two(f.1);
    lemma_padded_two(f.2);
    lemma_padded_two(f.3);
    lemma_padded_two(f.4);
    lemma_padded_two(f.5);
    reveal_strlit("-");
    reveal_strlit("T");
    reveal_strlit(":");
    reveal_strlit("Z");
    let s = rfc3339(secs);
    let y = padded(f.0, 4);
    assert(s =~= seq![
        y[0],
        y[1],
        y[2],
        y[3],
        '-',
        padded(f.1, 2)[0],
        padded(f.1, 2)[1],
        '-',
        padded(f.2, 2)[0],
        padded(f.2, 2)[1],
        'T',
        padded(f.3, 2)[0],
        padded(f.3, 2)[1],
        ':',
        padded(f.4, 2)[0],
        padded(f.4, 2)[1],
        ':',
        padded(f.5, 2)[0],
        padded(f.5, 2)[1],
        'Z',
    ]);
}

proof fn lemma_two_digits(n: int)
    requires
        0 <= n < 100,
    ensures
        padded(n, 2).len() == 2,
        decimal_value(padded(n, 2)) == n,
{
    lemma_padded_two(n);
    reveal_with_fuel(decimal_value, 3);
    let s = padded(n, 2);
    assert(s.drop_last() =~= seq![s[0]]);
    assert(s.drop_last().drop_last() =~= Seq::<char>::empty());
}

proof fn lemma_four_digits(n: int)
    requires
        0 <= n < 10_000,
    ensures
        padded(n, 4).len() == 4,
        decimal_value(padded(n, 4)) == n,
{
    lemma_padded_four(n);
    reveal_with_fuel(decimal_value, 5);
    let s = padded(n, 4);
    assert(s.drop_last() =~= seq![s[0], s[1], s[2]]);
    assert(s.drop_last().drop_last() =~= seq![s[0], s[1]]);
    assert(s.drop_last().drop_last().drop_last() =~= seq![s[0]]);
    assert(s.drop_last().drop_last().drop_last().drop_last() =~= Seq::<char>::empty());
    assert(n == n / 1000 * 1000 + n / 100 % 10 * 100 + n / 10 % 10 * 10 + n % 10);
}

/// A time reads back: its text names a day of the calendar and a time of day,
/// and the days since 1970-01-01 with that time of day make up the seconds.
pub proof fn a_time_reads_back(secs: int)
    requires
        four_digit_time(secs),
    ensures
        ({
            let s = rfc3339(secs);
            let year = decimal_value(s.subrange(0, 4));
            let month = decimal_value(s.subrange(5, 7));
            let day = decimal_value(s.subrange(8, 10));
            let hour = decimal_value(s.subrange(11, 13));
            let minute = decimal_value(s.subrange(14, 16));
            let second = decimal_value(s.subrange(17, 19));
            &&& is_date(year, month, day)
            &&& 0 <= hour < 24 && 0 <= minute < 60 && 0 <= second < 60
            &&& day_number(year, month, day) * 86_400 + hour * 3600 + minute * 60 + second == secs
        }),
{
    let f = fields(secs);
    let s = rfc3339(secs);
    lemma_fields(secs);
    lemma_civil_date(secs / 86_400);
    lemma_four_digits(f.0);
    lemma_two_digits(f.1);
    lemma_two_digits(f.2);
    lemma_two_digits(f.3);
    lemma_two_digits(f.4);
    lemma_two_digits(f.5);
    reveal_strlit("-");
    reveal_strlit("T");
    reveal_strlit(":");
    reveal_strlit("Z");
    assert(s.subrange(0, 4) =~= padded(f.0, 4));
    assert(s.subrange(5, 7) =~= padded(f.1, 2));
    assert(s.subrange(8, 10) =~= padded(f.2, 2));
    assert(s.subrange(11, 13) =~= padded(f.3, 2));
    assert(s.subrange(14, 16) =~= padded(f.4, 2));
    assert(s.subrange(17, 19) =~= padded(f.5, 2));
}

}

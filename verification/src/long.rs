//! The long format (`-l`): one line per file with its permission string,
//! link count, owner, group, size, modification date and name.

use vstd::prelude::*;
use chrono::{Datelike, Local, TimeZone, Timelike};
use crate::mode::{file_mode_string, mode_string};
use crate::text::{
    digit_char, spaces, lemma_decimal_len, lemma_pad_left_len, lemma_two_digits_len, decimal, decimal_string, pad_left, push_char, push_decimal, push_padded,
    push_signed_decimal, push_str, push_two_digits, signed_decimal, two_digits,
};

verus! {

/// What the long format shows of a file, as read from its metadata without
/// following a symbolic link.
#[derive(Clone, Copy, Debug, PartialEq, Eq)]
pub struct FileStat {
    /// The POSIX mode bits.
    pub mode: u32,
    pub is_dir: bool,
    pub is_symlink: bool,
    /// The number of hard links.
    pub nlink: u64,
    pub uid: u32,
    pub gid: u32,
    /// The size in bytes.
    pub size: u64,
    /// The modification time, in seconds since the Unix epoch.
    pub mtime: i64,
}

/// A point in time in the local time zone, to the minute.
#[derive(Clone, Copy, Debug, PartialEq, Eq)]
pub struct LocalTime {
    pub year: i32,
    pub month: u32,
    pub day: u32,
    pub hour: u32,
    pub minute: u32,
}

/// The ranges of a calendar date and a time of day.
pub open spec fn valid_local_time(t: LocalTime) -> bool {
    &&& 1 <= t.month <= 12
    &&& 1 <= t.day <= 31
    &&& t.hour < 24
    &&& t.minute < 60
}

/// A leap year of the proleptic Gregorian calendar (year 0 is 1 BC).
pub open spec fn is_leap_year(y: int) -> bool {
    (y % 4 == 0 && y % 100 != 0) || y % 400 == 0
}

/// The number of days of month `m` (1 to 12) of year `y`.
pub open spec fn days_in_month(y: int, m: int) -> int {
    if m == 2 {
        if is_leap_year(y) {
            29
        } else {
            28
        }
    } else if m == 4 || m == 6 || m == 9 || m == 11 {
        30
    } else {
        31
    }
}

/// The number of leap years before year `y`, counted from a fixed origin;
/// only differences of it matter.
pub open spec fn leap_years_before(y: int) -> int {
    (y - 1) / 4 - (y - 1) / 100 + (y - 1) / 400
}

/// The days from 1 January 1970 to 1 January of year `y` (negative before).
pub open spec fn days_before_year(y: int) -> int {
    365 * (y - 1970) + leap_years_before(y) - leap_years_before(1970)
}

/// The days from 1 January to the first day of month `m` in year `y`.
pub open spec fn days_before_month(y: int, m: int) -> int {
    let common: int = if m == 1 {
        0
    } else if m == 2 {
        31
    } else if m == 3 {
        59
    } else if m == 4 {
        90
    } else if m == 5 {
        120
    } else if m == 6 {
        151
    } else if m == 7 {
        181
    } else if m == 8 {
        212
    } else if m == 9 {
        243
    } else if m == 10 {
        273
    } else if m == 11 {
        304
    } else {
        334
    };
    common + if m > 2 && is_leap_year(y) {
        1int
    } else {
        0int
    }
}

/// The day number of a date: days since 1 January 1970.
pub open spec fn day_number(y: int, m: int, d: int) -> int {
    days_before_year(y) + days_before_month(y, m) + d - 1
}

/// `t` is the Gregorian date and the time of day, to the minute, of the
/// instant `secs` seconds after 1970-01-01 00:00 (in the same clock).
pub open spec fn civil_time_at(t: LocalTime, secs: int) -> bool {
    let start = day_number(t.year as int, t.month as int, t.day as int) * 86400 + t.hour * 3600 + t.minute * 60;
    &&& 1 <= t.month <= 12
    &&& 1 <= t.day <= days_in_month(t.year as int, t.month as int)
    &&& t.hour < 24
    &&& t.minute < 60
    &&& start <= secs < start + 60
}

/// `t` is the local time of the Unix timestamp `mtime` in a time zone whose
/// offset from UTC is less than a day either way.
pub open spec fn local_time_of_timestamp(t: LocalTime, mtime: int) -> bool {
    exists|local: int| -86400 < local - mtime < 86400 && #[trigger] civil_time_at(t, local)
}

/// The earliest Unix timestamp chrono can date: 1 January of year -262143.
pub const MIN_TIMESTAMP: i64 = -8334601228800i64;

/// The latest Unix timestamp chrono can date: the last second of
/// 31 December 262142.
pub const MAX_TIMESTAMP: i64 = 8210266876799i64;

/// The local date and time of a Unix timestamp, through chrono's
/// `Local.timestamp_opt(secs, 0)` and the `Datelike` and `Timelike` getters.
/// Between the two limits `DateTime::from_timestamp` succeeds, so chrono
/// returns a single local time: the UTC instant plus the local offset, a
/// `FixedOffset` of less than a day, read as a proleptic Gregorian date and
/// time of day (the getters also read dates one day past chrono's range).
/// Which offset applies comes from the environment's time zone, so it is
/// left open.  When no time zone data can be read chrono uses UTC; it panics
/// when no local time type can be chosen for the instant, or when a zone
/// gives an offset of a day or more, neither of which is stated.
#[verifier::external_body]
fn local_time_of(mtime: i64) -> (t: LocalTime)
    requires
        MIN_TIMESTAMP <= mtime <= MAX_TIMESTAMP,
    ensures
        local_time_of_timestamp(t, mtime as int),
{
    let dt = Local.timestamp_opt(mtime, 0).unwrap();
    LocalTime { year: dt.year(), month: dt.month(), day: dt.day(), hour: dt.hour(), minute: dt.minute() }
}

/// The current year in the local time zone, through chrono's `Local::now()`.
/// It depends on the clock: nothing is claimed of it.
#[verifier::external_body]
fn current_local_year() -> (y: i32) {
    Local::now().year()
}

/// The name of the user with this id, through `users::get_user_by_uid`,
/// converted lossily to UTF-8.  The answer comes from the system's user
/// database: nothing is claimed of it.
#[verifier::external_body]
fn user_name(uid: u32) -> (name: Option<String>) {
    match users::get_user_by_uid(uid) {
        Some(user) => Some(user.name().to_string_lossy().into_owned()),
        None => None,
    }
}

/// The name of the group with this id, through `users::get_group_by_gid`,
/// converted lossily to UTF-8.  The answer comes from the system's group
/// database: nothing is claimed of it.
#[verifier::external_body]
fn group_name(gid: u32) -> (name: Option<String>) {
    match users::get_group_by_gid(gid) {
        Some(group) => Some(group.name().to_string_lossy().into_owned()),
        None => None,
    }
}

/// The part after the date: `(YYYY)` for a file of an earlier year than the
/// current one, else ` HH:MM` (the time right-aligned in six characters).
pub open spec fn time_suffix(t: LocalTime, now_year: int) -> Seq<char> {
    if t.year < now_year {
        seq!['('] + signed_decimal(t.year as int) + seq![')']
    } else {
        pad_left(two_digits(t.hour as nat) + seq![':'] + two_digits(t.minute as nat), 6)
    }
}

/// The date column: `M/D` with month and day right-aligned in two
/// characters, a space, the suffix, all right-aligned in twelve characters.
pub open spec fn time_field(t: LocalTime, now_year: int) -> Seq<char> {
    pad_left(
        pad_left(decimal(t.month as nat), 2) + seq!['/'] + pad_left(decimal(t.day as nat), 2) + seq![' ']
            + time_suffix(t, now_year),
        12,
    )
}

/// A requested column width, where 0 asks for the default.
pub open spec fn width_or(w: usize, default: int) -> int {
    if w == 0 {
        default
    } else {
        w as int
    }
}

/// The owner or group column: the name found, else the numeric id.
pub open spec fn id_label(found: Option<Seq<char>>, id: nat) -> Seq<char> {
    match found {
        Some(name) => name,
        None => decimal(id),
    }
}

/// A long-format line: fields separated by single spaces, the link count
/// right-aligned in `nlink_width` (2 when 0 is given) and the size in
/// `size_width` (6 when 0 is given).
pub open spec fn long_line(
    st: FileStat,
    owner: Seq<char>,
    group: Seq<char>,
    time: Seq<char>,
    name: Seq<char>,
    size_width: usize,
    nlink_width: usize,
) -> Seq<char> {
    mode_string(st.mode, st.is_dir, st.is_symlink) + seq![' ']
        + pad_left(decimal(st.nlink as nat), width_or(nlink_width, 2)) + seq![' '] + owner + seq![' ']
        + group + seq![' '] + pad_left(decimal(st.size as nat), width_or(size_width, 6)) + seq![' ']
        + time + seq![' '] + name
}

/// The message for a path whose metadata could not be read.
pub open spec fn access_error(name: Seq<char>, msg: Seq<char>) -> Seq<char> {
    "nls: cannot access '"@ + name + "': "@ + msg
}

/// Builds the message for a path whose metadata could not be read.
pub fn access_error_message(name: &str, msg: &str) -> (s: String)
    ensures
        s@ == access_error(name@, msg@),
{
    let mut s = String::new();
    push_str(&mut s, "nls: cannot access '");
    push_str(&mut s, name);
    push_str(&mut s, "': ");
    push_str(&mut s, msg);
    s
}

/// Builds the date column of a long-format line for a file modified at `t`,
/// when the current year is `now_year`.
pub fn format_time(t: &LocalTime, now_year: i32) -> (s: String)
    ensures
        s@ == time_field(*t, now_year as int),
        s@.len() >= 1,
        (s@.last() == ')') == (t.year < now_year),
        t.year < now_year ==> ends_with(s@, seq!['('] + signed_decimal(t.year as int) + seq![')']),
        t.year >= now_year ==> ends_with(s@, seq![':'] + two_digits(t.minute as nat)),
        t.year >= now_year && t.hour < 100 && t.minute < 100 ==> ends_with(
            s@,
            seq![' '] + two_digits(t.hour as nat) + seq![':'] + two_digits(t.minute as nat),
        ),
        valid_local_time(*t) && (t.year >= now_year || 1000 <= t.year <= 9999) ==> {
            &&& s@.len() == 12
            &&& s@[0] == if t.month < 10 { ' ' } else { digit_char((t.month / 10) as int) }
            &&& s@[1] == digit_char((t.month % 10) as int)
            &&& s@[2] == '/'
            &&& s@[3] == if t.day < 10 { ' ' } else { digit_char((t.day / 10) as int) }
            &&& s@[4] == digit_char((t.day % 10) as int)
            &&& s@[5] == ' '
        },
{
    let s = build_time_field(t, now_year);
    proof {
        lemma_time_field_form(*t, now_year as int);
        if valid_local_time(*t) && (t.year >= now_year || 1000 <= t.year <= 9999) {
            lemma_time_field_date(*t, now_year as int);
        }
    }
    s
}

fn build_time_field(t: &LocalTime, now_year: i32) -> (s: String)
    ensures
        s@ == time_field(*t, now_year as int),
{
    let mut raw = String::new();
    let month = decimal_string(t.month as u64);
    push_padded(&mut raw, month.as_str(), 2);
    push_char(&mut raw, '/');
    let day = decimal_string(t.day as u64);
    push_padded(&mut raw, day.as_str(), 2);
    push_char(&mut raw, ' ');
    let ghost date = raw@;
    if t.year < now_year {
        push_char(&mut raw, '(');
        push_signed_decimal(&mut raw, t.year as i64);
        push_char(&mut raw, ')');
        assert(raw@ == date + time_suffix(*t, now_year as int));
    } else {
        let mut hm = String::new();
        push_two_digits(&mut hm, t.hour);
        push_char(&mut hm, ':');
        push_two_digits(&mut hm, t.minute);
        push_padded(&mut raw, hm.as_str(), 6);
        assert(raw@ == date + time_suffix(*t, now_year as int));
    }
    let mut s = String::new();
    push_padded(&mut s, raw.as_str(), 12);
    s
}

fn push_id_label(s: &mut String, found: Option<String>, id: u32)
    ensures
        final(s)@ == old(s)@ + id_label(
            match found {
                Some(n) => Some(n@),
                None => None,
            },
            id as nat,
        ),
{
    match found {
        Some(name) => push_str(s, name.as_str()),
        None => push_decimal(s, id as u64),
    }
}

/// The view of an optional string.
pub open spec fn opt_view(o: Option<String>) -> Option<Seq<char>> {
    match o {
        Some(s) => Some(s@),
        None => None,
    }
}

/// Builds a long-format line from the metadata, the owner and group names
/// found for its ids (if any), the local modification time and the current
/// year.
#[verifier::rlimit(40)]
pub fn long_info_with(
    st: &FileStat,
    owner: Option<String>,
    group: Option<String>,
    when: &LocalTime,
    now_year: i32,
    name: &str,
    size_width: usize,
    nlink_width: usize,
) -> (line: String)
    ensures
        line@ == long_line(
            *st,
            id_label(opt_view(owner), st.uid as nat),
            id_label(opt_view(group), st.gid as nat),
            time_field(*when, now_year as int),
            name@,
            size_width,
            nlink_width,
        ),
{
    let width: usize = if size_width == 0 {
        6
    } else {
        size_width
    };
    let nlink_w: usize = if nlink_width == 0 {
        2
    } else {
        nlink_width
    };
    let mut line = file_mode_string(st.mode, st.is_dir, st.is_symlink);
    push_char(&mut line, ' ');
    let nlink = decimal_string(st.nlink);
    push_padded(&mut line, nlink.as_str(), nlink_w);
    push_char(&mut line, ' ');
    push_id_label(&mut line, owner, st.uid);
    push_char(&mut line, ' ');
    push_id_label(&mut line, group, st.gid);
    push_char(&mut line, ' ');
    let size = decimal_string(st.size);
    push_padded(&mut line, size.as_str(), width);
    push_char(&mut line, ' ');
    let time = format_time(when, now_year);
    push_str(&mut line, time.as_str());
    push_char(&mut line, ' ');
    push_str(&mut line, name);
    line
}

/// `found` is an answer of the system's user database to a lookup of the
/// user id `uid`: a value `user_name(uid)` can return.
pub closed spec fn user_lookup(uid: u32, found: Option<String>) -> bool {
    call_ensures(user_name, (uid,), found)
}

/// `found` is an answer of the system's group database to a lookup of the
/// group id `gid`: a value `group_name(gid)` can return.
pub closed spec fn group_lookup(gid: u32, found: Option<String>) -> bool {
    call_ensures(group_name, (gid,), found)
}

/// `year` is a year the local clock can give: a value `current_local_year()`
/// can return.
pub closed spec fn clock_year(year: i32) -> bool {
    call_ensures(current_local_year, (), year)
}

/// What `long_info` may return: the access message for unreadable metadata;
/// otherwise the long line, with the owner and group names the system's
/// databases give for the file's user and group ids (or the numeric ids when
/// they give none), the local time of the modification time in the local
/// time zone, and the current year read from the clock.
pub open spec fn long_info_result(
    stat: Result<FileStat, String>,
    name: Seq<char>,
    size_width: usize,
    nlink_width: usize,
    line: Seq<char>,
) -> bool {
    match stat {
        Err(msg) => line == access_error(name, msg@),
        Ok(st) => exists|owner: Option<String>, group: Option<String>, t: LocalTime, now_year: i32|
            #![trigger user_lookup(st.uid, owner), group_lookup(st.gid, group), local_time_of_timestamp(t, st.mtime as int), clock_year(now_year)]
            {
                &&& user_lookup(st.uid, owner)
                &&& group_lookup(st.gid, group)
                &&& clock_year(now_year)
                &&& local_time_of_timestamp(t, st.mtime as int)
                &&& line == long_line(
                    st,
                    id_label(opt_view(owner), st.uid as nat),
                    id_label(opt_view(group), st.gid as nat),
                    time_field(t, now_year as int),
                    name,
                    size_width,
                    nlink_width,
                )
            },
    }
}

/// The modification time of readable metadata is one whose local date can be
/// computed.
pub open spec fn datable(stat: Result<FileStat, String>) -> bool {
    match stat {
        Ok(st) => MIN_TIMESTAMP <= st.mtime <= MAX_TIMESTAMP,
        Err(_) => true,
    }
}

/// Builds the long-format line of a file from its metadata (or from the
/// error met while reading it), looking up the owner and group names and the
/// local time.
pub fn long_info(stat: &Result<FileStat, String>, name: &str, size_width: usize, nlink_width: usize) -> (line: String)
    requires
        datable(*stat),
    ensures
        long_info_result(*stat, name@, size_width, nlink_width, line@),
        stat is Ok ==> exists|owner: Option<String>, group: Option<String>|
            #![trigger user_lookup(stat->Ok_0.uid, owner), group_lookup(stat->Ok_0.gid, group)]
            user_lookup(stat->Ok_0.uid, owner) && group_lookup(stat->Ok_0.gid, group) && starts_with(
                line@,
                line_head(stat->Ok_0, owner_field(owner, stat->Ok_0.uid), owner_field(group, stat->Ok_0.gid), nlink_width),
            ),
{
    match stat {
        Ok(st) => {
            let owner = user_name(st.uid);
            let group = group_name(st.gid);
            let when = local_time_of(st.mtime);
            let now_year = current_local_year();
            let ghost o = owner;
            let ghost g = group;
            let line = long_info_with(st, owner, group, &when, now_year, name, size_width, nlink_width);
            assert(user_lookup(st.uid, o) && group_lookup(st.gid, g) && clock_year(now_year));
            assert(local_time_of_timestamp(when, st.mtime as int));
            proof {
                lemma_long_info_owner_group(*stat, name@, size_width, nlink_width, line@);
            }
            line
        },
        Err(msg) => access_error_message(name, msg.as_str()),
    }
}

/// The date column is twelve characters wide for every valid local time
/// whose year, when it is shown (a year before the current one), has at most
/// four digits and a sign: a file of an earlier year, shown with its year,
/// and a recent one, shown with its time, put their names at the same place.
pub proof fn lemma_time_field_width(t: LocalTime, now_year: int)
    requires
        valid_local_time(t),
        t.year < now_year ==> -999 <= t.year <= 9999,
    ensures
        time_field(t, now_year).len() == 12,
{
    lemma_decimal_len(t.month as nat);
    lemma_decimal_len(t.day as nat);
    lemma_decimal_len(t.hour as nat);
    lemma_decimal_len(t.minute as nat);
    lemma_pad_left_len(decimal(t.month as nat), 2);
    lemma_pad_left_len(decimal(t.day as nat), 2);
    if t.year < now_year {
        if t.year < 0 {
            lemma_decimal_len((-t.year) as nat);
        } else {
            lemma_decimal_len(t.year as nat);
        }
    } else {
        let hm = two_digits(t.hour as nat) + seq![':'] + two_digits(t.minute as nat);
        lemma_two_digits_len(t.hour as nat);
        lemma_two_digits_len(t.minute as nat);
        assert(hm.len() == 5);
        lemma_pad_left_len(hm, 6);
    }
    let raw = pad_left(decimal(t.month as nat), 2) + seq!['/'] + pad_left(decimal(t.day as nat), 2) + seq![' ']
        + time_suffix(t, now_year);
    assert(raw.len() <= 12);
    lemma_pad_left_len(raw, 12);
}

/// `s` ends with `suffix`.
pub open spec fn ends_with(s: Seq<char>, suffix: Seq<char>) -> bool {
    suffix.len() <= s.len() && s.subrange(s.len() - suffix.len(), s.len() as int) == suffix
}

proof fn lemma_ends_with_concat(a: Seq<char>, b: Seq<char>, c: Seq<char>)
    requires
        ends_with(b, c),
    ensures
        ends_with(a + b, c),
{
    assert((a + b).subrange((a + b).len() - c.len(), (a + b).len() as int) =~= b.subrange(b.len() - c.len(), b.len() as int));
}

proof fn lemma_decimal_last(n: nat)
    ensures
        decimal(n).len() >= 1,
        decimal(n).last() == digit_char((n % 10) as int),
{
    lemma_decimal_len(n);
}

/// The date column shows the year in brackets exactly for a file of an
/// earlier year than the current one: it then ends with `(`, the year and
/// `)`; otherwise it ends with the minute after a colon (and, for a valid
/// time, with a space, the two-digit hour, a colon and the two-digit
/// minute).
pub proof fn lemma_time_field_form(t: LocalTime, now_year: int)
    ensures
        time_field(t, now_year).len() >= 1,
        (time_field(t, now_year).last() == ')') == (t.year < now_year),
        t.year < now_year ==> ends_with(time_field(t, now_year), seq!['('] + signed_decimal(t.year as int) + seq![')']),
        t.year >= now_year ==> ends_with(time_field(t, now_year), seq![':'] + two_digits(t.minute as nat)),
        t.year >= now_year && t.hour < 100 && t.minute < 100 ==> ends_with(
            time_field(t, now_year),
            seq![' '] + two_digits(t.hour as nat) + seq![':'] + two_digits(t.minute as nat),
        ),
{
    let date = pad_left(decimal(t.month as nat), 2) + seq!['/'] + pad_left(decimal(t.day as nat), 2) + seq![' '];
    let suffix = time_suffix(t, now_year);
    let raw = date + suffix;
    assert(raw =~= date + suffix);
    let f = time_field(t, now_year);
    assert(f == spaces(12 - raw.len()) + raw);
    assert(ends_with(suffix, suffix)) by {
        assert(suffix.subrange(0, suffix.len() as int) =~= suffix);
    }
    lemma_ends_with_concat(date, suffix, suffix);
    lemma_ends_with_concat(spaces(12 - raw.len()), raw, suffix);
    if t.year < now_year {
        assert(suffix.last() == ')');
        assert(f.last() == suffix.last());
    } else {
        let hm = two_digits(t.hour as nat) + seq![':'] + two_digits(t.minute as nat);
        let mm = seq![':'] + two_digits(t.minute as nat);
        lemma_decimal_last(t.minute as nat);
        lemma_decimal_last(t.hour as nat);
        assert(suffix == spaces(6 - hm.len()) + hm);
        assert(ends_with(hm, mm)) by {
            assert(hm.subrange(hm.len() - mm.len(), hm.len() as int) =~= mm);
        }
        lemma_ends_with_concat(spaces(6 - hm.len()), hm, mm);
        lemma_ends_with_concat(date, suffix, mm);
        lemma_ends_with_concat(spaces(12 - raw.len()), raw, mm);
        assert(f.last() == mm.last());
        assert(mm.last() == two_digits(t.minute as nat).last());
        assert(two_digits(t.minute as nat).last() == decimal(t.minute as nat).last());
        if t.hour < 100 && t.minute < 100 {
            lemma_two_digits_len(t.hour as nat);
            lemma_two_digits_len(t.minute as nat);
            let shm = seq![' '] + two_digits(t.hour as nat) + seq![':'] + two_digits(t.minute as nat);
            assert(suffix =~= shm);
            lemma_ends_with_concat(date, suffix, suffix);
            assert(ends_with(f, shm));
        }
    }
}

/// `s` starts with `prefix`.
pub open spec fn starts_with(s: Seq<char>, prefix: Seq<char>) -> bool {
    prefix.len() <= s.len() && s.take(prefix.len() as int) == prefix
}

/// The owner column: the user database's answer, else the numeric id.
pub open spec fn owner_field(found: Option<String>, uid: u32) -> Seq<char> {
    match found {
        Some(n) => n@,
        None => decimal(uid as nat),
    }
}

/// The beginning of a long line up to the size: the permission string, the
/// right-aligned link count, the owner, the group, each followed by a space.
pub open spec fn line_head(st: FileStat, owner: Seq<char>, group: Seq<char>, nlink_width: usize) -> Seq<char> {
    mode_string(st.mode, st.is_dir, st.is_symlink) + seq![' ']
        + pad_left(decimal(st.nlink as nat), width_or(nlink_width, 2)) + seq![' '] + owner + seq![' ']
        + group + seq![' ']
}

/// In a long line of readable metadata, the field after the link count is
/// what the user database answers for the file's user id (or that id in
/// decimal when it answers nothing), and the next field is what the group
/// database answers for the file's group id (or that id).
#[verifier::rlimit(40)]
pub proof fn lemma_long_info_owner_group(
    stat: Result<FileStat, String>,
    name: Seq<char>,
    size_width: usize,
    nlink_width: usize,
    line: Seq<char>,
)
    requires
        long_info_result(stat, name, size_width, nlink_width, line),
        stat is Ok,
    ensures
        exists|owner: Option<String>, group: Option<String>|
            #![trigger user_lookup(stat->Ok_0.uid, owner), group_lookup(stat->Ok_0.gid, group)]
            user_lookup(stat->Ok_0.uid, owner) && group_lookup(stat->Ok_0.gid, group) && starts_with(
                line,
                line_head(stat->Ok_0, owner_field(owner, stat->Ok_0.uid), owner_field(group, stat->Ok_0.gid), nlink_width),
            ),
{
    let st = stat->Ok_0;
    let (o, g, t, y) = choose|owner: Option<String>, group: Option<String>, t: LocalTime, now_year: i32|
        #![trigger user_lookup(st.uid, owner), group_lookup(st.gid, group), local_time_of_timestamp(t, st.mtime as int), clock_year(now_year)]
        {
            &&& user_lookup(st.uid, owner)
            &&& group_lookup(st.gid, group)
            &&& clock_year(now_year)
            &&& local_time_of_timestamp(t, st.mtime as int)
            &&& line == long_line(
                st,
                id_label(opt_view(owner), st.uid as nat),
                id_label(opt_view(group), st.gid as nat),
                time_field(t, now_year as int),
                name,
                size_width,
                nlink_width,
            )
        };
    let head = line_head(st, owner_field(o, st.uid), owner_field(g, st.gid), nlink_width);
    assert(owner_field(o, st.uid) == id_label(opt_view(o), st.uid as nat));
    assert(owner_field(g, st.gid) == id_label(opt_view(g), st.gid as nat));
    let rest = pad_left(decimal(st.size as nat), width_or(size_width, 6)) + seq![' '] + time_field(t, y as int)
        + seq![' '] + name;
    assert(line =~= head + rest);
    assert(line.take(head.len() as int) =~= head);
    assert(user_lookup(st.uid, o) && group_lookup(st.gid, g) && starts_with(line, head));
}

proof fn lemma_two_char_number(n: nat)
    requires
        1 <= n < 100,
    ensures
        pad_left(decimal(n), 2) == if n < 10 {
            seq![' ', digit_char(n as int)]
        } else {
            seq![digit_char((n / 10) as int), digit_char((n % 10) as int)]
        },
{
    lemma_decimal_len(n);
    if n < 10 {
        assert(pad_left(decimal(n), 2) =~= seq![' ', digit_char(n as int)]);
    } else {
        assert(decimal(n / 10) == seq![digit_char((n / 10) as int)]);
        assert(pad_left(decimal(n), 2) =~= seq![digit_char((n / 10) as int), digit_char((n % 10) as int)]);
    }
}

/// The date column starts with the month, then `/`, then the day, each
/// right-aligned in two characters, then a space (whenever the column holds
/// no more than twelve characters: a time of day, or a four-digit year).
pub proof fn lemma_time_field_date(t: LocalTime, now_year: int)
    requires
        valid_local_time(t),
        t.year >= now_year || 1000 <= t.year <= 9999,
    ensures
        time_field(t, now_year).len() == 12,
        time_field(t, now_year)[0] == if t.month < 10 { ' ' } else { digit_char((t.month / 10) as int) },
        time_field(t, now_year)[1] == digit_char((t.month % 10) as int),
        time_field(t, now_year)[2] == '/',
        time_field(t, now_year)[3] == if t.day < 10 { ' ' } else { digit_char((t.day / 10) as int) },
        time_field(t, now_year)[4] == digit_char((t.day % 10) as int),
        time_field(t, now_year)[5] == ' ',
{
    lemma_two_char_number(t.month as nat);
    lemma_two_char_number(t.day as nat);
    let date = pad_left(decimal(t.month as nat), 2) + seq!['/'] + pad_left(decimal(t.day as nat), 2) + seq![' '];
    let suffix = time_suffix(t, now_year);
    let raw = date + suffix;
    assert(date.len() == 6);
    if t.year < now_year {
        assert(decimal(t.year as nat).len() == 4) by {
            lemma_decimal_len(t.year as nat / 10);
            lemma_decimal_len(t.year as nat / 100);
            lemma_decimal_len(t.year as nat / 1000);
            assert(decimal(t.year as nat) == decimal(t.year as nat / 10).push(digit_char((t.year as nat % 10) as int)));
            assert(decimal(t.year as nat / 10) == decimal(t.year as nat / 100).push(digit_char((t.year as nat / 10 % 10) as int)));
            assert(decimal(t.year as nat / 100) == decimal(t.year as nat / 1000).push(digit_char((t.year as nat / 100 % 10) as int)));
        }
        assert(suffix.len() == 6);
    } else {
        lemma_two_digits_len(t.hour as nat);
        lemma_two_digits_len(t.minute as nat);
        let hm = two_digits(t.hour as nat) + seq![':'] + two_digits(t.minute as nat);
        lemma_pad_left_len(hm, 6);
        assert(suffix.len() == 6);
    }
    assert(raw.len() == 12);
    assert(time_field(t, now_year) =~= raw);
}

} // verus!

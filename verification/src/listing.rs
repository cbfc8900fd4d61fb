//! What a listing prints for each path given on the command line: the names
//! of a directory, or one line for anything else, in the short or the long
//! format, with the columns of a long directory listing aligned.

use vstd::prelude::*;
use crate::long::{
    access_error, access_error_message, datable, long_info, long_info_result, opt_view, FileStat, MAX_TIMESTAMP,
    MIN_TIMESTAMP,
};
use crate::mode::{hidden, is_hidden};
use crate::order::{lemma_listing_order, listing_order, listing_positions, views};
use crate::text::{decimal, decimal_string, lemma_decimal_len, lemma_pad_left_len, pad_left, push_char, push_str};

verus! {

/// A directory entry: its name and the metadata read for it (or the message
/// of the error met while reading it).
pub struct Entry {
    pub name: String,
    pub stat: Result<FileStat, String>,
}

/// What was found at a path given on the command line.
pub enum Target {
    /// A directory, with its entries, or the message of the error met while
    /// reading it.
    Directory(Result<Vec<Entry>, String>),
    /// Anything else, with its metadata, or the message of the error met
    /// while reading it (also when nothing exists there).
    Other(Result<FileStat, String>),
}

/// The names of the entries.
pub open spec fn entry_names(es: Seq<Entry>) -> Seq<Seq<char>> {
    es.map_values(|e: Entry| e.name@)
}

/// The entries of a directory listing, in the order they are listed.
pub open spec fn listed_entries(es: Seq<Entry>) -> Seq<Entry> {
    listing_order(entry_names(es)).map_values(|i: int| es[i])
}

/// Whether metadata that could be read is that of a directory.
pub open spec fn is_dir_stat(stat: Result<FileStat, String>) -> bool {
    match stat {
        Ok(st) => st.is_dir,
        Err(_) => false,
    }
}

/// The name as listed: a directory gets a trailing slash.
pub open spec fn shown_name(name: Seq<char>, is_dir: bool) -> Seq<char> {
    if is_dir {
        name.push('/')
    } else {
        name
    }
}

/// The number of digits of the size, 0 when the metadata is missing.
pub open spec fn size_digits(stat: Result<FileStat, String>) -> nat {
    match stat {
        Ok(st) => decimal(st.size as nat).len(),
        Err(_) => 0,
    }
}

/// The number of digits of the link count, 0 when the metadata is missing.
pub open spec fn nlink_digits(stat: Result<FileStat, String>) -> nat {
    match stat {
        Ok(st) => decimal(st.nlink as nat).len(),
        Err(_) => 0,
    }
}

/// The largest of the values and `floor`.
pub open spec fn max_from(s: Seq<nat>, floor: nat) -> nat
    decreases s.len(),
{
    if s.len() == 0 {
        floor
    } else {
        let m = max_from(s.drop_last(), floor);
        if s.last() > m {
            s.last()
        } else {
            m
        }
    }
}

/// The width of the size column of a long directory listing: the most digits
/// of a listed size, and at least 6.
pub open spec fn size_column(es: Seq<Entry>) -> nat {
    let l = listed_entries(es);
    max_from(Seq::new(l.len(), |j: int| size_digits(l[j].stat)), 6)
}

/// The width of the link-count column of a long directory listing: the most
/// digits of a listed link count, and at least 2.
pub open spec fn nlink_column(es: Seq<Entry>) -> nat {
    let l = listed_entries(es);
    max_from(Seq::new(l.len(), |j: int| nlink_digits(l[j].stat)), 2)
}

proof fn lemma_max_from(s: Seq<nat>, floor: nat, bound: nat)
    requires
        floor <= bound,
        forall|j: int| 0 <= j < s.len() ==> #[trigger] s[j] <= bound,
    ensures
        floor <= max_from(s, floor) <= bound,
        forall|j: int| 0 <= j < s.len() ==> #[trigger] s[j] <= max_from(s, floor),
    decreases s.len(),
{
    if s.len() > 0 {
        let t = s.drop_last();
        assert forall|j: int| 0 <= j < t.len() implies #[trigger] t[j] <= bound by {
            assert(t[j] == s[j]);
        }
        lemma_max_from(t, floor, bound);
        assert forall|j: int| 0 <= j < s.len() implies #[trigger] s[j] <= max_from(s, floor) by {
            if j < s.len() - 1 {
                assert(s[j] == t[j]);
            }
        }
    }
}

proof fn lemma_digits_bound(stat: Result<FileStat, String>)
    ensures
        size_digits(stat) <= 20,
        nlink_digits(stat) <= 20,
{
    if let Ok(st) = stat {
        lemma_decimal_len(st.size as nat);
        lemma_decimal_len(st.nlink as nat);
    }
}

/// The number of decimal digits of `n`.
pub fn decimal_width(n: u64) -> (w: usize)
    ensures
        w == decimal(n as nat).len(),
{
    let s = decimal_string(n);
    s.unicode_len()
}

/// Whether read metadata is that of a directory.
pub fn stat_is_dir(stat: &Result<FileStat, String>) -> (r: bool)
    ensures
        r == is_dir_stat(*stat),
        r <==> (stat is Ok && stat->Ok_0.is_dir),
{
    match stat {
        Ok(st) => st.is_dir,
        Err(_) => false,
    }
}

/// The name to print for an entry: with a trailing `/` for a directory.
pub fn display_name(name: &str, is_dir: bool) -> (s: String)
    ensures
        s@ == shown_name(name@, is_dir),
        s@ == name@ + if is_dir {
            seq!['/']
        } else {
            Seq::<char>::empty()
        },
{
    let mut s = String::new();
    push_str(&mut s, name);
    if is_dir {
        push_char(&mut s, '/');
    }
    assert(name@ =~= name@ + Seq::<char>::empty());
    assert(name@.push('/') =~= name@ + seq!['/']);
    s
}

fn entry_name_strings(entries: &Vec<Entry>) -> (names: Vec<String>)
    ensures
        views(names@) == entry_names(entries@),
{
    let mut names: Vec<String> = Vec::new();
    let mut k: usize = 0;
    while k < entries.len()
        invariant
            k <= entries@.len(),
            names@.len() == k,
            forall|j: int| 0 <= j < k ==> #[trigger] names@[j]@ == entries@[j].name@,
        decreases entries@.len() - k,
    {
        names.push(entries[k].name.clone());
        k = k + 1;
    }
    assert(views(names@) =~= entry_names(entries@));
    names
}

/// The lines of a directory in the short format: the listed names, with a
/// `/` after each directory.
pub fn directory_short_lines(entries: &Vec<Entry>) -> (lines: Vec<String>)
    ensures
        views(lines@) == listed_entries(entries@).map_values(|e: Entry| shown_name(e.name@, is_dir_stat(e.stat))),
        lines@.len() == listed_entries(entries@).len(),
        forall|k: int| 0 <= k < lines@.len() ==> #[trigger] lines@[k]@ == listed_entries(entries@)[k].name@ + if listed_entries(entries@)[k].stat is Ok
            && listed_entries(entries@)[k].stat->Ok_0.is_dir {
            seq!['/']
        } else {
            Seq::<char>::empty()
        },
{
    let names = entry_name_strings(entries);
    let order = listing_positions(&names);
    let ghost ord = listing_order(entry_names(entries@));
    let mut lines: Vec<String> = Vec::new();
    let mut k: usize = 0;
    while k < order.len()
        invariant
            k <= order@.len(),
            order@.map_values(|j: usize| j as int) == ord,
            ord == listing_order(entry_names(entries@)),
            names@.len() == entries@.len(),
            forall|m: int| 0 <= m < order@.len() ==> #[trigger] order@[m] < entries@.len(),
            lines@.len() == k,
            forall|m: int| 0 <= m < k ==> #[trigger] lines@[m]@ == shown_name(
                entries@[ord[m]].name@,
                is_dir_stat(entries@[ord[m]].stat),
            ),
        decreases order@.len() - k,
    {
        assert(ord[k as int] == order@[k as int] as int);
        let e = &entries[order[k]];
        let line = display_name(e.name.as_str(), stat_is_dir(&e.stat));
        lines.push(line);
        k = k + 1;
    }
    assert(views(lines@) =~= listed_entries(entries@).map_values(|e: Entry| shown_name(e.name@, is_dir_stat(e.stat))));
    proof {
        lemma_shown_names(entries@);
        assert forall|k: int| 0 <= k < lines@.len() implies #[trigger] lines@[k]@ == listed_entries(entries@)[k].name@ + if listed_entries(entries@)[k].stat is Ok
            && listed_entries(entries@)[k].stat->Ok_0.is_dir {
            seq!['/']
        } else {
            Seq::<char>::empty()
        } by {
            assert(views(lines@)[k] == lines@[k]@);
            assert(short_directory_lines(entries@)[k] == views(lines@)[k]);
        }
    }
    lines
}

/// Every entry that is listed (its name is not hidden) has a modification
/// time that can be dated.
pub open spec fn listed_datable(es: Seq<Entry>) -> bool {
    forall|k: int| 0 <= k < es.len() && !hidden(es[k].name@) ==> datable(#[trigger] es[k].stat)
}

/// The lines of a directory in the long format: for each listed entry its
/// long line, under its shown name, with the size column as wide as the
/// longest listed size (at least 6) and the link-count column as wide as the
/// longest listed link count (at least 2).
pub fn directory_long_lines(entries: &Vec<Entry>) -> (lines: Vec<String>)
    requires
        listed_datable(entries@),
    ensures
        lines@.len() == listed_entries(entries@).len(),
        forall|k: int| 0 <= k < lines@.len() ==> long_info_result(
            listed_entries(entries@)[k].stat,
            shown_name(listed_entries(entries@)[k].name@, is_dir_stat(listed_entries(entries@)[k].stat)),
            size_column(entries@) as usize,
            nlink_column(entries@) as usize,
            #[trigger] lines@[k]@,
        ),
        forall|k: int| 0 <= k < lines@.len() ==> long_info_result(
            listed_entries(entries@)[k].stat,
            listed_entries(entries@)[k].name@ + if listed_entries(entries@)[k].stat is Ok
                && listed_entries(entries@)[k].stat->Ok_0.is_dir {
                seq!['/']
            } else {
                Seq::<char>::empty()
            },
            size_column(entries@) as usize,
            nlink_column(entries@) as usize,
            #[trigger] lines@[k]@,
        ),
{
    let names = entry_name_strings(entries);
    let order = listing_positions(&names);
    let ghost ord = listing_order(entry_names(entries@));
    let ghost l = listed_entries(entries@);
    let ghost sizes = Seq::new(l.len(), |j: int| size_digits(l[j].stat));
    let ghost links = Seq::new(l.len(), |j: int| nlink_digits(l[j].stat));
    let mut size_w: usize = 6;
    let mut nlink_w: usize = 2;
    let mut k: usize = 0;
    while k < order.len()
        invariant
            k <= order@.len(),
            order@.map_values(|j: usize| j as int) == ord,
            ord == listing_order(entry_names(entries@)),
            l == listed_entries(entries@),
            l.len() == order@.len(),
            sizes == Seq::new(l.len(), |j: int| size_digits(l[j].stat)),
            links == Seq::new(l.len(), |j: int| nlink_digits(l[j].stat)),
            forall|m: int| 0 <= m < order@.len() ==> #[trigger] order@[m] < entries@.len(),
            size_w == max_from(sizes.take(k as int), 6),
            nlink_w == max_from(links.take(k as int), 2),
            size_w <= 20,
            nlink_w <= 20,
        decreases order@.len() - k,
    {
        assert(ord[k as int] == order@[k as int] as int);
        let e = &entries[order[k]];
        assert(l[k as int] == *e);
        proof {
            lemma_digits_bound(e.stat);
        }
        let (sd, nd): (usize, usize) = match &e.stat {
            Ok(st) => (decimal_width(st.size), decimal_width(st.nlink)),
            Err(_) => (0, 0),
        };
        if sd > size_w {
            size_w = sd;
        }
        if nd > nlink_w {
            nlink_w = nd;
        }
        assert(sizes.take(k + 1).drop_last() =~= sizes.take(k as int));
        assert(links.take(k + 1).drop_last() =~= links.take(k as int));
        k = k + 1;
    }
    assert(sizes.take(k as int) =~= sizes);
    assert(links.take(k as int) =~= links);
    assert(size_w == size_column(entries@));
    assert(nlink_w == nlink_column(entries@));
    proof {
        lemma_listing_order(entry_names(entries@));
        assert forall|m: int| 0 <= m < l.len() implies datable(#[trigger] l[m].stat) by {
            let j = ord[m];
            assert(entry_names(entries@)[j] == entries@[j].name@);
            assert(l[m] == entries@[j]);
        }
    }
    let mut lines: Vec<String> = Vec::new();
    let mut k: usize = 0;
    while k < order.len()
        invariant
            k <= order@.len(),
            order@.map_values(|j: usize| j as int) == ord,
            ord == listing_order(entry_names(entries@)),
            l == listed_entries(entries@),
            l.len() == order@.len(),
            forall|m: int| 0 <= m < order@.len() ==> #[trigger] order@[m] < entries@.len(),
            forall|m: int| 0 <= m < l.len() ==> datable(#[trigger] l[m].stat),
            size_w == size_column(entries@),
            nlink_w == nlink_column(entries@),
            lines@.len() == k,
            forall|m: int| 0 <= m < k ==> long_info_result(
                l[m].stat,
                shown_name(l[m].name@, is_dir_stat(l[m].stat)),
                size_w,
                nlink_w,
                #[trigger] lines@[m]@,
            ),
        decreases order@.len() - k,
    {
        assert(ord[k as int] == order@[k as int] as int);
        let e = &entries[order[k]];
        assert(l[k as int] == *e);
        let shown = display_name(e.name.as_str(), stat_is_dir(&e.stat));
        let line = long_info(&e.stat, shown.as_str(), size_w, nlink_w);
        lines.push(line);
        k = k + 1;
    }
    proof {
        lemma_shown_names(entries@);
        assert forall|m: int| 0 <= m < lines@.len() implies long_info_result(
            l[m].stat,
            l[m].name@ + if l[m].stat is Ok && l[m].stat->Ok_0.is_dir {
                seq!['/']
            } else {
                Seq::<char>::empty()
            },
            size_w,
            nlink_w,
            #[trigger] lines@[m]@,
        ) by {
            assert(shown_name(l[m].name@, is_dir_stat(l[m].stat)) == l[m].name@ + if l[m].stat is Ok && l[m].stat->Ok_0.is_dir {
                seq!['/']
            } else {
                Seq::<char>::empty()
            });
        }
    }
    lines
}

/// In a long directory listing every listed size is padded to the same
/// width, the size column's, and every listed link count to the link-count
/// column's: the columns line up.
pub proof fn lemma_columns_aligned(es: Seq<Entry>)
    ensures
        6 <= size_column(es) <= 20,
        2 <= nlink_column(es) <= 20,
        forall|k: int| 0 <= k < listed_entries(es).len() ==> (#[trigger] listed_entries(es)[k]).stat is Ok ==> {
            let st = listed_entries(es)[k].stat->Ok_0;
            &&& pad_left(decimal(st.size as nat), size_column(es) as int).len() == size_column(es)
            &&& pad_left(decimal(st.nlink as nat), nlink_column(es) as int).len() == nlink_column(es)
        },
{
    let l = listed_entries(es);
    let sizes = Seq::new(l.len(), |j: int| size_digits(l[j].stat));
    let links = Seq::new(l.len(), |j: int| nlink_digits(l[j].stat));
    assert forall|j: int| 0 <= j < sizes.len() implies #[trigger] sizes[j] <= 20 by {
        lemma_digits_bound(l[j].stat);
    }
    assert forall|j: int| 0 <= j < links.len() implies #[trigger] links[j] <= 20 by {
        lemma_digits_bound(l[j].stat);
    }
    lemma_max_from(sizes, 6, 20);
    lemma_max_from(links, 2, 20);
    assert forall|k: int| 0 <= k < l.len() && (#[trigger] l[k]).stat is Ok implies {
        let st = l[k].stat->Ok_0;
        &&& pad_left(decimal(st.size as nat), size_column(es) as int).len() == size_column(es)
        &&& pad_left(decimal(st.nlink as nat), nlink_column(es) as int).len() == nlink_column(es)
    } by {
        let st = l[k].stat->Ok_0;
        assert(sizes[k] == decimal(st.size as nat).len());
        assert(links[k] == decimal(st.nlink as nat).len());
        lemma_pad_left_len(decimal(st.size as nat), size_column(es) as int);
        lemma_pad_left_len(decimal(st.nlink as nat), nlink_column(es) as int);
    }
}

/// Where the last segment of a path starts: just after its last `/`, or at
/// 0 when it has none.
pub open spec fn last_segment_start(path: Seq<char>) -> int
    decreases path.len(),
{
    if path.len() == 0 {
        0
    } else if path.last() == '/' {
        path.len() as int
    } else {
        last_segment_start(path.drop_last())
    }
}

/// The last segment starts inside the path.
pub proof fn lemma_last_segment_start(path: Seq<char>)
    ensures
        0 <= last_segment_start(path) <= path.len(),
    decreases path.len(),
{
    if path.len() > 0 && path.last() != '/' {
        lemma_last_segment_start(path.drop_last());
    }
}

/// What `std::path::Path::file_name` gives for a Unix path written as text:
/// its last component once trailing slashes and `.` components are dropped;
/// nothing when that component is `..`, or when only the root, a leading
/// `.` or nothing is left.
pub open spec fn path_file_name(path: Seq<char>) -> Option<Seq<char>>
    decreases path.len(),
{
    if path.len() == 0 {
        None
    } else if path.last() == '/' {
        path_file_name(path.drop_last())
    } else {
        let start = last_segment_start(path);
        let part = path.subrange(start, path.len() as int);
        if part == seq!['.'] {
            if start <= 0 {
                None
            } else {
                proof {
                    lemma_last_segment_start(path);
                }
                path_file_name(path.subrange(0, start - 1))
            }
        } else if part == seq!['.', '.'] {
            None
        } else {
            Some(part)
        }
    }
}

/// The last component of a path, through `std::path::Path::file_name`
/// (converted back to a string, which cannot fail for a path given as a
/// `str`).  Claims the component std documents for Unix paths.
#[verifier::external_body]
fn file_name_of(path: &str) -> (name: Option<String>)
    ensures
        opt_view(name) == path_file_name(path@),
{
    match std::path::Path::new(path).file_name() {
        Some(n) => n.to_str().map(String::from),
        None => None,
    }
}

/// The name shown for a path that is not a directory: its last component,
/// or the path itself when it has none.
pub open spec fn base_name(path: Seq<char>) -> Seq<char> {
    match path_file_name(path) {
        Some(n) => n,
        None => path,
    }
}

/// The name shown for a path that is not a directory.
pub fn base_name_of(path: &str) -> (name: String)
    ensures
        name@ == base_name(path@),
{
    match file_name_of(path) {
        Some(n) => n,
        None => {
            let mut s = String::new();
            push_str(&mut s, path);
            s
        },
    }
}

/// The size width of a single file's long line: the digits of its size, or
/// 6 when its metadata could not be read.
pub open spec fn single_size_width(stat: Result<FileStat, String>) -> nat {
    match stat {
        Ok(st) => decimal(st.size as nat).len(),
        Err(_) => 6,
    }
}

/// The link-count width of a single file's long line: the digits of its
/// link count, or 2 when its metadata could not be read.
pub open spec fn single_nlink_width(stat: Result<FileStat, String>) -> nat {
    match stat {
        Ok(st) => decimal(st.nlink as nat).len(),
        Err(_) => 2,
    }
}

/// What may be printed for a path that is not a directory: its base name in
/// the short format; in the long format its long line, sized to its own
/// size and link count.
pub open spec fn single_path_result(path: Seq<char>, stat: Result<FileStat, String>, long: bool, line: Seq<char>) -> bool {
    if long {
        long_info_result(
            stat,
            base_name(path),
            single_size_width(stat) as usize,
            single_nlink_width(stat) as usize,
            line,
        )
    } else {
        line == base_name(path)
    }
}

/// The line printed for a path that is not a directory (or does not exist).
pub fn single_path_line(path_str: &str, stat: &Result<FileStat, String>, long: bool) -> (line: String)
    requires
        long ==> datable(*stat),
    ensures
        single_path_result(path_str@, *stat, long, line@),
{
    let base = base_name_of(path_str);
    if long {
        let (size_width, nlink_width): (usize, usize) = match stat {
            Ok(st) => (decimal_width(st.size), decimal_width(st.nlink)),
            Err(_) => (6, 2),
        };
        long_info(stat, base.as_str(), size_width, nlink_width)
    } else {
        base
    }
}

/// The long lines of a directory, as `directory_long_lines` describes them.
pub open spec fn long_directory_result(es: Seq<Entry>, lines: Seq<Seq<char>>) -> bool {
    &&& lines.len() == listed_entries(es).len()
    &&& forall|k: int| 0 <= k < lines.len() ==> long_info_result(
        listed_entries(es)[k].stat,
        shown_name(listed_entries(es)[k].name@, is_dir_stat(listed_entries(es)[k].stat)),
        size_column(es) as usize,
        nlink_column(es) as usize,
        #[trigger] lines[k],
    )
}

/// The short lines of a directory: the listed names, directories with a `/`.
pub open spec fn short_directory_lines(es: Seq<Entry>) -> Seq<Seq<char>> {
    listed_entries(es).map_values(|e: Entry| shown_name(e.name@, is_dir_stat(e.stat)))
}

/// In the long format, every modification time that is shown can be dated:
/// those of the listed entries of a directory, or that of anything else.
pub open spec fn target_datable(target: Target, long: bool) -> bool {
    long ==> match target {
        Target::Directory(Ok(es)) => listed_datable(es@),
        Target::Directory(Err(_)) => true,
        Target::Other(stat) => datable(stat),
    }
}

/// What is printed for one path: the lines for standard output, or the
/// message for standard error.
pub open spec fn listing_result(path: Seq<char>, target: Target, long: bool, out: Result<Vec<String>, String>) -> bool {
    match target {
        Target::Directory(Err(msg)) => out matches Err(m) && m@ == access_error(path, msg@),
        Target::Directory(Ok(es)) => out matches Ok(lines) && if long {
            long_directory_result(es@, views(lines@))
        } else {
            views(lines@) == short_directory_lines(es@)
        },
        Target::Other(stat) => out matches Ok(lines) && lines@.len() == 1 && single_path_result(
            path,
            stat,
            long,
            lines@[0]@,
        ),
    }
}

/// Decides what to print for a path given on the command line, from what was
/// found there: a directory's listed entries (names, or long lines with
/// aligned columns), one line for anything else, or the message for a
/// directory that could not be read.
pub fn listing_lines(path_str: &str, target: &Target, long: bool) -> (out: Result<Vec<String>, String>)
    requires
        target_datable(*target, long),
    ensures
        listing_result(path_str@, *target, long, out),
{
    match target {
        Target::Directory(Err(msg)) => Err(access_error_message(path_str, msg.as_str())),
        Target::Directory(Ok(entries)) => {
            if long {
                let lines = directory_long_lines(entries);
                assert(long_directory_result(entries@, views(lines@)));
                Ok(lines)
            } else {
                Ok(directory_short_lines(entries))
            }
        },
        Target::Other(stat) => {
            let line = single_path_line(path_str, stat, long);
            let mut lines: Vec<String> = Vec::new();
            lines.push(line);
            Ok(lines)
        },
    }
}

/// The paths to list: those given, or the current directory when none is.
pub fn paths_or_current(paths: Vec<String>) -> (ps: Vec<String>)
    ensures
        paths@.len() == 0 ==> views(ps@) == seq!["."@],
        paths@.len() > 0 ==> ps@ == paths@,
{
    if paths.len() == 0 {
        let mut ps: Vec<String> = Vec::new();
        let mut dot = String::new();
        push_str(&mut dot, ".");
        ps.push(dot);
        assert(views(ps@) =~= seq!["."@]);
        ps
    } else {
        paths
    }
}

/// What was read of a directory's entries, kept in order: in the short
/// format the first entry that could not be read makes the whole directory
/// unreadable (with that entry's error); in the long format such entries are
/// skipped.
pub open spec fn gather(reads: Seq<Result<Entry, String>>, long: bool) -> Result<Seq<Entry>, Seq<char>>
    decreases reads.len(),
{
    if reads.len() == 0 {
        Ok(Seq::empty())
    } else {
        match gather(reads.drop_last(), long) {
            Err(m) => Err(m),
            Ok(es) => match reads.last() {
                Ok(e) => Ok(es.push(e)),
                Err(msg) => if long {
                    Ok(es)
                } else {
                    Err(msg@)
                },
            },
        }
    }
}

/// The view of a gathered directory.
pub open spec fn gathered_view(r: Result<Vec<Entry>, String>) -> Result<Seq<Entry>, Seq<char>> {
    match r {
        Ok(v) => Ok(v@),
        Err(m) => Err(m@),
    }
}

proof fn lemma_gather_err_stays(reads: Seq<Result<Entry, String>>, long: bool, k: int)
    requires
        0 <= k <= reads.len(),
        gather(reads.take(k), long) is Err,
    ensures
        gather(reads, long) == gather(reads.take(k), long),
    decreases reads.len(),
{
    if k < reads.len() {
        assert(reads.drop_last().take(k) =~= reads.take(k));
        lemma_gather_err_stays(reads.drop_last(), long, k);
    } else {
        assert(reads.take(k) =~= reads);
    }
}

/// Collects the entries read from a directory, or the error that makes it
/// unreadable, as `gather` describes.
pub fn gather_entries(reads: Vec<Result<Entry, String>>, long: bool) -> (r: Result<Vec<Entry>, String>)
    ensures
        gathered_view(r) == gather(reads@, long),
{
    let ghost orig = reads@;
    assert(orig.len() == reads.len());
    let mut rest = reads;
    let mut es: Vec<Entry> = Vec::new();
    let mut k: usize = 0;
    while rest.len() > 0
        invariant
            k <= orig.len(),
            k + rest@.len() == orig.len(),
            orig.len() <= usize::MAX,
            orig == reads@,
            rest@ == orig.skip(k as int),
            gather(orig.take(k as int), long) == Ok::<Seq<Entry>, Seq<char>>(es@),
        decreases rest@.len(),
    {
        let item = rest.remove(0);
        assert(orig.take(k + 1).drop_last() =~= orig.take(k as int));
        assert(orig.take(k + 1).last() == item);
        assert(rest@ =~= orig.skip(k + 1));
        match item {
            Ok(e) => {
                es.push(e);
            },
            Err(msg) => {
                assert(gather(orig.take(k + 1), long) == if long {
                    Ok::<Seq<Entry>, Seq<char>>(es@)
                } else {
                    Err::<Seq<Entry>, Seq<char>>(msg@)
                });
                if !long {
                    proof {
                        lemma_gather_err_stays(orig, long, k + 1);
                    }
                    return Err(msg);
                }
            },
        }
        k = k + 1;
    }
    assert(orig.take(k as int) =~= orig);
    Ok(es)
}

/// Whether readable metadata has a modification time that can be dated.
pub fn stat_datable(stat: &Result<FileStat, String>) -> (r: bool)
    ensures
        r == datable(*stat),
{
    match stat {
        Ok(st) => MIN_TIMESTAMP <= st.mtime && st.mtime <= MAX_TIMESTAMP,
        Err(_) => true,
    }
}

/// Whether every modification time the listing would date can be dated; a
/// listing for which this is false would stop inside chrono.
pub fn can_date(target: &Target, long: bool) -> (r: bool)
    ensures
        r == target_datable(*target, long),
{
    if !long {
        return true;
    }
    match target {
        Target::Directory(Ok(entries)) => {
            let mut k: usize = 0;
            while k < entries.len()
                invariant
                    k <= entries@.len(),
                    target_datable(*target, long) == listed_datable(entries@),
                    forall|j: int| 0 <= j < k && !hidden(entries@[j].name@) ==> datable(#[trigger] entries@[j].stat),
                decreases entries@.len() - k,
            {
                let e = &entries[k];
                if !is_hidden(e.name.as_str()) && !stat_datable(&e.stat) {
                    assert(!datable(entries@[k as int].stat));
                    assert(!listed_datable(entries@));
                    return false;
                }
                k = k + 1;
            }
            true
        },
        Target::Directory(Err(_)) => true,
        Target::Other(stat) => stat_datable(stat),
    }
}

/// A listed name is shown with a trailing `/` exactly when its metadata was
/// read and says it is a directory; anything else (a symbolic link
/// included, or an entry whose metadata could not be read) is shown as its
/// bare name.
pub proof fn lemma_shown_names(es: Seq<Entry>)
    ensures
        forall|k: int| 0 <= k < listed_entries(es).len() ==>
            shown_name(#[trigger] listed_entries(es)[k].name@, is_dir_stat(listed_entries(es)[k].stat))
                == listed_entries(es)[k].name@ + if listed_entries(es)[k].stat is Ok && listed_entries(es)[k].stat->Ok_0.is_dir {
                    seq!['/']
                } else {
                    Seq::<char>::empty()
                },
        forall|k: int| 0 <= k < short_directory_lines(es).len() ==>
            #[trigger] short_directory_lines(es)[k] == listed_entries(es)[k].name@ + if listed_entries(es)[k].stat is Ok
                && listed_entries(es)[k].stat->Ok_0.is_dir {
                seq!['/']
            } else {
                Seq::<char>::empty()
            },
{
    let l = listed_entries(es);
    assert forall|k: int| 0 <= k < l.len() implies shown_name(#[trigger] l[k].name@, is_dir_stat(l[k].stat))
        == l[k].name@ + if l[k].stat is Ok && l[k].stat->Ok_0.is_dir {
            seq!['/']
        } else {
            Seq::<char>::empty()
        } by {
        if l[k].stat is Ok && l[k].stat->Ok_0.is_dir {
            assert(l[k].name@.push('/') =~= l[k].name@ + seq!['/']);
        } else {
            assert(l[k].name@ =~= l[k].name@ + Seq::<char>::empty());
        }
    }
    assert forall|k: int| 0 <= k < short_directory_lines(es).len() implies #[trigger] short_directory_lines(es)[k]
        == l[k].name@ + if l[k].stat is Ok && l[k].stat->Ok_0.is_dir {
            seq!['/']
        } else {
            Seq::<char>::empty()
        } by {
        assert(short_directory_lines(es)[k] == shown_name(l[k].name@, is_dir_stat(l[k].stat)));
        assert(shown_name(l[k].name@, is_dir_stat(l[k].stat)) == l[k].name@ + if l[k].stat is Ok && l[k].stat->Ok_0.is_dir {
            seq!['/']
        } else {
            Seq::<char>::empty()
        });
    }
}

} // verus!

//! Building the playlist of a download directory: which directories to scan, which
//! files are segments, their order, and the date written for each segment.

use vstd::prelude::*;
use crate::number::{int_text, lemma_nat_text_value, nat_text, parse_i64, parse_i64_spec, signed_text_value};
use crate::manager::segment_file_name;
use crate::strings::{before_char, ends_with, lemma_before_char, lemma_before_char_concat, has_char, has_suffix, push_str, split_two, text_after, text_before, without_last};

verus! {

broadcast use vstd::seq_lib::group_to_multiset_ensures;

/// A download directory: its name, its path, and whether it already holds a playlist.
pub struct ScanResult {
    pub name: String,
    pub path: String,
    pub has_list: bool,
}

/// What the file system says of one directory entry.
pub struct DirEntryInfo {
    pub name: String,
    pub path: String,
    pub is_dir: bool,
    pub has_list: bool,
}

/// A segment file found in a download directory: the time and the duration written
/// in its name, and the name itself.
pub struct SegmentFile {
    pub time: i64,
    pub duration: String,
    pub name: String,
}

/// The abstract value of a segment file.
pub struct SegmentFileView {
    pub time: int,
    pub duration: Seq<char>,
    pub name: Seq<char>,
}

impl View for SegmentFile {
    type V = SegmentFileView;

    open spec fn view(&self) -> SegmentFileView {
        SegmentFileView { time: self.time as int, duration: self.duration@, name: self.name@ }
    }
}

/// One entry of the playlist to write: the segment's file name, its duration as
/// written in the file name, and its program date and time.
pub struct PlannedSegment {
    pub uri: String,
    pub duration: String,
    pub program_date_time: String,
}

/// The file name of a playlist.
pub open spec fn playlist_file_name() -> Seq<char> {
    seq!['p', 'l', 'a', 'y', 'l', 'i', 's', 't', '.', 'm', '3', 'u', '8']
}

/// The path of the playlist in a directory: the directory, a `/` unless it ends in one,
/// and the file name. This is how `PathBuf::push` joins on Unix; on Windows, which takes
/// `/` as a separator too, it names the same file as `PathBuf::push` would.
pub open spec fn playlist_path_text(dir: Seq<char>) -> Seq<char> {
    if dir.len() == 0 {
        playlist_file_name()
    } else if dir.last() == '/' {
        dir + playlist_file_name()
    } else {
        dir + seq!['/'] + playlist_file_name()
    }
}

/// The path of the playlist file in a directory.
pub fn playlist_path(dir: &str) -> (r: String)
    ensures
        r@ == playlist_path_text(dir@),
{
    let mut r = String::new();
    push_str(&mut r, dir);
    if !dir.is_empty() && !ends_with(dir, "/") {
        crate::strings::push_char(&mut r, '/');
    }
    push_str(&mut r, "playlist.m3u8");
    proof {
        reveal_strlit("/");
        reveal_strlit("playlist.m3u8");
        if dir@.len() > 0 {
            assert(has_suffix(dir@, "/"@) <==> dir@.last() == '/') by {
                if dir@.last() == '/' {
                    assert(dir@.subrange(dir@.len() - 1, dir@.len() as int) =~= "/"@);
                }
                if has_suffix(dir@, "/"@) {
                    assert(dir@.subrange(dir@.len() - 1, dir@.len() as int)[0] == dir@.last());
                }
            }
        }
        assert(r@ =~= playlist_path_text(dir@));
    }
    r
}

/// The last component of a path, as `std::path::Path::file_name` gives it.
pub uninterp spec fn path_file_name(path: Seq<char>) -> Option<Seq<char>>;

/// The last component of a path (`std::path::Path::file_name`, as text).
/// The contract names the result; `None` when the path ends in `..` or has no
/// final component.
#[verifier::external_body]
fn file_name_of(path: &str) -> (r: Option<String>)
    ensures
        match r {
            Some(n) => path_file_name(path@) == Some(n@),
            None => path_file_name(path@) is None,
        },
{
    std::path::Path::new(path).file_name().map(|n| n.to_string_lossy().into_owned())
}

/// The scan result of a single directory given by its path: `None` when the path is
/// not an existing directory, otherwise the directory's name, its path and whether it
/// holds a playlist.
pub fn check_one_dir(path: String, is_dir: bool, has_list: bool) -> (r: Option<ScanResult>)
    requires
        is_dir ==> path_file_name(path@) is Some,
    ensures
        !is_dir ==> r is None,
        is_dir ==> (r matches Some(s) && s.name@ == path_file_name(path@)->0 && s.path@ == path@
            && s.has_list == has_list),
{
    if is_dir {
        match file_name_of(&path) {
            Some(name) => Some(ScanResult { name, path, has_list }),
            None => None,
        }
    } else {
        None
    }
}

/// `check_one_dir` for any path: `None` when the path is a directory without a final
/// name component (such as `/`), which `check_one_dir` does not accept; otherwise
/// `Some` of what `check_one_dir` gives.
pub fn try_check_one_dir(path: String, is_dir: bool, has_list: bool) -> (r: Option<Option<ScanResult>>)
    ensures
        (is_dir && path_file_name(path@) is None) <==> r is None,
        r matches Some(inner) ==> (!is_dir ==> inner is None) && (is_dir ==> (inner matches Some(s)
            && s.name@ == path_file_name(path@)->0 && s.path@ == path@ && s.has_list == has_list)),
{
    if is_dir {
        match file_name_of(&path) {
            Some(_) => Some(check_one_dir(path, is_dir, has_list)),
            None => None,
        }
    } else {
        Some(check_one_dir(path, is_dir, has_list))
    }
}

/// The directory entries of a scan that are directories, in order.
pub open spec fn dir_entries(entries: Seq<DirEntryInfo>) -> Seq<DirEntryInfo>
    decreases entries.len(),
{
    if entries.len() == 0 {
        Seq::<DirEntryInfo>::empty()
    } else if entries.last().is_dir {
        dir_entries(entries.drop_last()).push(entries.last())
    } else {
        dir_entries(entries.drop_last())
    }
}

/// The scan results of the entries of a directory: one per sub-directory, in order.
pub fn scan_results(entries: Vec<DirEntryInfo>) -> (r: Vec<ScanResult>)
    ensures
        r@.len() == dir_entries(entries@).len(),
        forall|k: int|
            0 <= k < r@.len() ==> (#[trigger] r@[k]).name@ == dir_entries(entries@)[k].name@
                && r@[k].path@ == dir_entries(entries@)[k].path@ && r@[k].has_list == dir_entries(
                entries@,
            )[k].has_list,
{
    let ghost all = entries@;
    let mut r: Vec<ScanResult> = Vec::new();
    let mut rest = entries;
    let n = rest.len();
    let mut i: usize = 0;
    while rest.len() > 0
        invariant
            rest@.len() + i == n,
            all.len() == n as nat,
            rest@ == all.skip(i as int),
            r@.len() == dir_entries(all.take(i as int)).len(),
            forall|k: int|
                0 <= k < r@.len() ==> (#[trigger] r@[k]).name@ == dir_entries(all.take(i as int))[k].name@
                    && r@[k].path@ == dir_entries(all.take(i as int))[k].path@ && r@[k].has_list
                    == dir_entries(all.take(i as int))[k].has_list,
        decreases rest.len(),
    {
        let e = rest.remove(0);
        assert(e == all[i as int]);
        proof {
            assert(all.take(i + 1).drop_last() == all.take(i as int));
            assert(all.take(i + 1).last() == all[i as int]);
            assert(rest@ =~= all.skip(i + 1));
        }
        if e.is_dir {
            r.push(ScanResult { name: e.name, path: e.path, has_list: e.has_list });
        }
        i = i + 1;
    }
    assert(all.take(n as int) == all);
    r
}

/// The directories that do not hold a playlist yet, in order.
pub open spec fn without_list(list: Seq<ScanResult>) -> Seq<ScanResult>
    decreases list.len(),
{
    if list.len() == 0 {
        Seq::<ScanResult>::empty()
    } else if list.last().has_list {
        without_list(list.drop_last())
    } else {
        without_list(list.drop_last()).push(list.last())
    }
}

/// "New" mode never writes over an existing playlist: every directory it picks has none,
/// and every directory without one is picked.
pub proof fn lemma_new_mode_skips_existing(list: Seq<ScanResult>)
    ensures
        forall|k: int| 0 <= k < without_list(list).len() ==> !(#[trigger] without_list(list)[k]).has_list,
        forall|i: int| 0 <= i < list.len() && !(#[trigger] list[i]).has_list ==> without_list(list).contains(list[i]),
        without_list(list).len() <= list.len(),
    decreases list.len(),
{
    if list.len() > 0 {
        let l = list.drop_last();
        lemma_new_mode_skips_existing(l);
        let p = without_list(l);
        assert forall|k: int| 0 <= k < without_list(list).len() implies !(#[trigger] without_list(list)[k]).has_list by {
            if k < p.len() {
                assert(without_list(list)[k] == p[k]);
            }
        }
        assert forall|i: int| 0 <= i < list.len() && !(#[trigger] list[i]).has_list implies without_list(list).contains(
            list[i],
        ) by {
            if i < l.len() {
                assert(l[i] == list[i]);
                let k = choose|k: int| 0 <= k < p.len() && p[k] == list[i];
                assert(without_list(list)[k] == list[i]);
            } else {
                assert(without_list(list).last() == list[i]);
            }
        }
    }
}

/// The directories to write a playlist into in "new" mode: those without one yet.
pub fn create_for_new(list: Vec<ScanResult>) -> (r: Vec<ScanResult>)
    ensures
        r@ == without_list(list@),
{
    let ghost all = list@;
    let mut r: Vec<ScanResult> = Vec::new();
    let mut rest = list;
    let n = rest.len();
    let mut i: usize = 0;
    while rest.len() > 0
        invariant
            rest@.len() + i == n,
            all.len() == n as nat,
            rest@ == all.skip(i as int),
            r@ == without_list(all.take(i as int)),
        decreases rest.len(),
    {
        let e = rest.remove(0);
        assert(e == all[i as int]);
        proof {
            assert(all.take(i + 1).drop_last() == all.take(i as int));
            assert(all.take(i + 1).last() == all[i as int]);
            assert(rest@ =~= all.skip(i + 1));
        }
        if !e.has_list {
            r.push(e);
        }
        i = i + 1;
    }
    assert(all.take(n as int) == all);
    r
}

/// The directories to write a playlist into in "all" mode: every one of them.
pub fn create_for_all(list: Vec<ScanResult>) -> (r: Vec<ScanResult>)
    ensures
        r@ == list@,
{
    list
}

/// The suffix of segment file names.
pub open spec fn ts_suffix() -> Seq<char> {
    seq!['.', 't', 's']
}

/// A segment file name: one that ends in `.ts`.
pub open spec fn is_ts_name(name: Seq<char>) -> bool {
    has_suffix(name, ts_suffix())
}

/// A segment file name without its `.ts` suffix.
pub open spec fn ts_stem(name: Seq<char>) -> Seq<char> {
    name.subrange(0, name.len() - 3)
}

/// The text before the first `.` of a name, where a `<time>.<duration>.ts` name keeps
/// its time.
pub open spec fn dot_time(name: Seq<char>) -> Seq<char> {
    before_char(name, '.')
}

/// A segment file name is read at its first `.` (`<time>.<duration>...ts`) when the
/// text before that `.` reads as an `i64`, or when its stem holds no `_`; otherwise it
/// is read as the downloader writes it, `<time>_<duration>.ts`.
pub open spec fn is_dot_name(name: Seq<char>) -> bool {
    parse_i64_spec(dot_time(name)) is Some || !ts_stem(name).contains('_')
}

/// The time part of a segment file name: the text before the first `.` for a name read
/// at its first `.`, otherwise the text before the first `_`.
pub open spec fn time_part(name: Seq<char>) -> Seq<char> {
    if is_dot_name(name) {
        dot_time(name)
    } else {
        before_char(ts_stem(name), '_')
    }
}

/// The duration part of a segment file name: for a name read at its first `.`, the
/// text between the first and the second `.`; otherwise the text between the first `_`
/// and the `.ts` suffix.
pub open spec fn duration_part(name: Seq<char>) -> Seq<char> {
    if is_dot_name(name) {
        before_char(name.skip(dot_time(name).len() + 1int), '.')
    } else {
        ts_stem(name).skip(before_char(ts_stem(name), '_').len() + 1int)
    }
}

/// Every segment file name has a time part that reads as an `i64`.
pub open spec fn segment_times_parse(names: Seq<Seq<char>>) -> bool {
    forall|i: int|
        0 <= i < names.len() && is_ts_name(#[trigger] names[i]) ==> parse_i64_spec(time_part(names[i])) is Some
}

/// The segment file described by a segment file name.
pub open spec fn segment_file_of(name: Seq<char>) -> SegmentFileView {
    SegmentFileView {
        time: parse_i64_spec(time_part(name))->0,
        duration: duration_part(name),
        name,
    }
}

/// The segment files among the names of a directory, in directory order.
pub open spec fn segment_files_of(names: Seq<Seq<char>>) -> Seq<SegmentFileView>
    decreases names.len(),
{
    if names.len() == 0 {
        Seq::<SegmentFileView>::empty()
    } else if is_ts_name(names.last()) {
        segment_files_of(names.drop_last()).push(segment_file_of(names.last()))
    } else {
        segment_files_of(names.drop_last())
    }
}

/// Where a file with time `t` goes in `s`: after the last element, counting from the
/// end, whose time is not greater than `t`.
pub open spec fn insert_pos(s: Seq<SegmentFileView>, t: int) -> int
    decreases s.len(),
{
    if s.len() == 0 {
        0
    } else if s.last().time <= t {
        s.len() as int
    } else {
        insert_pos(s.drop_last(), t)
    }
}

/// The files sorted by time by inserting each in turn; files with equal times keep
/// their order.
pub open spec fn sort_by_time(s: Seq<SegmentFileView>) -> Seq<SegmentFileView>
    decreases s.len(),
{
    if s.len() == 0 {
        s
    } else {
        let sorted = sort_by_time(s.drop_last());
        sorted.insert(insert_pos(sorted, s.last().time), s.last())
    }
}

/// Times never decrease along the sequence.
pub open spec fn sorted_by_time(s: Seq<SegmentFileView>) -> bool {
    forall|i: int, j: int| 0 <= i <= j < s.len() ==> (#[trigger] s[i]).time <= (#[trigger] s[j]).time
}

proof fn lemma_insert_pos(s: Seq<SegmentFileView>, t: int)
    ensures
        0 <= insert_pos(s, t) <= s.len(),
        forall|k: int| insert_pos(s, t) <= k < s.len() ==> (#[trigger] s[k]).time > t,
        insert_pos(s, t) > 0 ==> s[insert_pos(s, t) - 1].time <= t,
    decreases s.len(),
{
    if s.len() > 0 && s.last().time > t {
        lemma_insert_pos(s.drop_last(), t);
        assert forall|k: int| insert_pos(s, t) <= k < s.len() implies (#[trigger] s[k]).time > t by {
            if k < s.len() - 1 {
                assert(s[k] == s.drop_last()[k]);
            }
        }
        if insert_pos(s, t) > 0 {
            assert(s[insert_pos(s, t) - 1] == s.drop_last()[insert_pos(s, t) - 1]);
        }
    }
}

proof fn lemma_insert_pos_prefix(s: Seq<SegmentFileView>, t: int, j: int)
    requires
        0 <= j <= s.len(),
        forall|k: int| j <= k < s.len() ==> (#[trigger] s[k]).time > t,
    ensures
        insert_pos(s, t) == insert_pos(s.take(j), t),
    decreases s.len(),
{
    if s.len() > j {
        assert(s.last().time > t);
        assert forall|k: int| j <= k < s.drop_last().len() implies (#[trigger] s.drop_last()[k]).time > t by {
            assert(s.drop_last()[k] == s[k]);
        }
        lemma_insert_pos_prefix(s.drop_last(), t, j);
        assert(s.drop_last().take(j) == s.take(j));
    } else {
        assert(s.take(j) == s);
    }
}

/// Sorting by time gives times in non-decreasing order.
pub proof fn lemma_sort_by_time_sorted(s: Seq<SegmentFileView>)
    ensures
        sorted_by_time(sort_by_time(s)),
    decreases s.len(),
{
    if s.len() > 0 {
        let sorted = sort_by_time(s.drop_last());
        lemma_sort_by_time_sorted(s.drop_last());
        let x = s.last();
        let p = insert_pos(sorted, x.time);
        lemma_insert_pos(sorted, x.time);
        let r = sorted.insert(p, x);
        assert forall|i: int, j: int| 0 <= i <= j < r.len() implies (#[trigger] r[i]).time <= (#[trigger] r[j]).time by {
            if i < p && j < p {
                assert(r[i] == sorted[i] && r[j] == sorted[j]);
            } else if i < p && j == p {
                assert(r[i] == sorted[i]);
                assert(sorted[i].time <= sorted[p - 1].time);
            } else if i < p {
                assert(r[i] == sorted[i] && r[j] == sorted[j - 1]);
            } else if i == p && j > p {
                assert(r[j] == sorted[j - 1]);
            } else if i > p {
                assert(r[i] == sorted[i - 1] && r[j] == sorted[j - 1]);
            }
        }
    }
}

/// Sorting by time neither loses nor adds files.
pub proof fn lemma_sort_by_time_permutes(s: Seq<SegmentFileView>)
    ensures
        sort_by_time(s).to_multiset() == s.to_multiset(),
    decreases s.len(),
{
    if s.len() > 0 {
        lemma_sort_by_time_permutes(s.drop_last());
        let sorted = sort_by_time(s.drop_last());
        lemma_insert_pos(sorted, s.last().time);
        assert(s.drop_last().push(s.last()) == s);
    }
}

/// Inserts a file into a list sorted by time, after the files whose time is not greater.
fn insert_by_time(out: &mut Vec<SegmentFile>, x: SegmentFile)
    ensures
        final(out)@.map_values(|f: SegmentFile| f@) == old(out)@.map_values(|f: SegmentFile| f@).insert(
            insert_pos(old(out)@.map_values(|f: SegmentFile| f@), x@.time),
            x@,
        ),
{
    let ghost s = old(out)@.map_values(|f: SegmentFile| f@);
    let mut j: usize = out.len();
    while j > 0 && out[j - 1].time > x.time
        invariant
            out@ == old(out)@,
            s == out@.map_values(|f: SegmentFile| f@),
            j <= out@.len(),
            forall|k: int| j <= k < s.len() ==> (#[trigger] s[k]).time > x@.time,
        decreases j,
    {
        j = j - 1;
    }
    proof {
        lemma_insert_pos_prefix(s, x@.time, j as int);
        if j > 0 {
            assert(s.take(j as int).last() == s[j - 1]);
        }
        assert(insert_pos(s.take(j as int), x@.time) == j);
    }
    out.insert(j, x);
    assert(out@.map_values(|f: SegmentFile| f@) =~= s.insert(j as int, x@));
}

/// The views of a list of names.
pub open spec fn names_view(names: Seq<String>) -> Seq<Seq<char>> {
    names.map_values(|s: String| s@)
}

/// The time and duration parts of a segment file name.
fn name_parts(name: &String) -> (r: (String, String))
    requires
        is_ts_name(name@),
    ensures
        r.0@ == time_part(name@),
        r.1@ == duration_part(name@),
{
    proof {
        let k = name@.len() - 3;
        assert(name@.subrange(k, name@.len() as int)[0] == name@[k]);
        assert(name@.contains('.'));
    }
    let stem = without_last(name, 3);
    assert(stem@ == ts_stem(name@));
    let dot = split_two(name, '.');
    if parse_i64(&dot.0).is_some() || !has_char(&stem, '_') {
        dot
    } else {
        (text_before(&stem, '_'), text_after(&stem, '_'))
    }
}

/// Whether every segment file name has a time part that reads as an `i64` in the range
/// of dates that can be written, so that a playlist can be planned.
pub fn segment_times_ok(names: &Vec<String>) -> (r: bool)
    ensures
        r == segment_times_writable(names_view(names@)),
{
    let ghost nv = names_view(names@);
    let mut i: usize = 0;
    while i < names.len()
        invariant
            nv == names_view(names@),
            i <= names@.len(),
            forall|j: int|
                0 <= j < i && is_ts_name(#[trigger] nv[j]) ==> (parse_i64_spec(time_part(nv[j])) matches Some(t)
                    && min_timestamp() <= t <= max_timestamp()),
        decreases names.len() - i,
    {
        let name = &names[i];
        assert(nv[i as int] == name@);
        proof {
            reveal_strlit(".ts");
            assert(".ts"@ =~= ts_suffix());
        }
        if ends_with(name, ".ts") {
            let (time_text, _) = name_parts(name);
            match parse_i64(&time_text) {
                Some(t) => {
                    if t < -8334601228800 || t > 8210266876799 {
                        return false;
                    }
                },
                None => {
                    return false;
                },
            }
        }
        i = i + 1;
    }
    true
}

/// The segment files among the names of a directory, sorted by the time written in
/// their names; files with equal times stay in directory order. A segment file name
/// is `<time>.<duration>.<...>ts` when the text before its first `.` reads as a time,
/// and otherwise `<time>_<duration>.ts`, as the downloader writes it.
pub fn segment_files(names: &Vec<String>) -> (r: Vec<SegmentFile>)
    requires
        segment_times_parse(names_view(names@)),
    ensures
        r@.map_values(|f: SegmentFile| f@) == sort_by_time(segment_files_of(names_view(names@))),
{
    let ghost nv = names_view(names@);
    let mut out: Vec<SegmentFile> = Vec::new();
    let mut i: usize = 0;
    while i < names.len()
        invariant
            nv == names_view(names@),
            segment_times_parse(nv),
            i <= names@.len(),
            out@.map_values(|f: SegmentFile| f@) == sort_by_time(segment_files_of(nv.take(i as int))),
        decreases names.len() - i,
    {
        let name = &names[i];
        proof {
            assert(nv.take(i + 1).drop_last() == nv.take(i as int));
            assert(nv.take(i + 1).last() == name@);
            assert(nv[i as int] == name@);
            reveal_strlit(".ts");
            assert(".ts"@ =~= ts_suffix());
        }
        if ends_with(name, ".ts") {
            assert(is_ts_name(nv[i as int]));
            let (time_text, duration) = name_parts(name);
            let time = match parse_i64(&time_text) {
                Some(t) => t,
                None => {
                    assert(false);
                    0
                },
            };
            let file = SegmentFile { time, duration, name: name.clone() };
            assert(file@ == segment_file_of(name@));
            proof {
                let prev = segment_files_of(nv.take(i as int));
                assert(segment_files_of(nv.take(i + 1)) == prev.push(file@));
                assert(prev.push(file@).drop_last() == prev);
            }
            insert_by_time(&mut out, file);
        }
        i = i + 1;
    }
    assert(nv.take(names@.len() as int) == nv);
    out
}

/// The earliest second that `chrono` can represent as a UTC date and time.
pub open spec fn min_timestamp() -> int {
    -8334601228800
}

/// The latest second that `chrono` can represent as a UTC date and time.
pub open spec fn max_timestamp() -> int {
    8210266876799
}

/// The `Debug` text of the UTC date and time at a Unix timestamp, as `chrono` writes it
/// (for instance `2019-03-13T10:26:54Z`).
pub uninterp spec fn utc_debug_text(secs: i64) -> Seq<char>;

/// The UTC date and time at a Unix timestamp in `chrono`'s `Debug` form
/// (`chrono::Utc.timestamp(secs, 0)` formatted with `{:?}`). The contract names the
/// text; `chrono` panics outside the range of years it represents, which `requires`
/// leaves out.
#[verifier::external_body]
fn utc_timestamp_text(secs: i64) -> (r: String)
    requires
        min_timestamp() <= secs <= max_timestamp(),
    ensures
        r@ == utc_debug_text(secs),
{
    #[allow(deprecated)]
    let t = chrono::TimeZone::timestamp(&chrono::Utc, secs, 0);
    format!("{:?}", t)
}

/// Every segment file name has a time part that reads as an `i64` in the range of
/// dates that can be written.
pub open spec fn segment_times_writable(names: Seq<Seq<char>>) -> bool {
    forall|i: int|
        0 <= i < names.len() && is_ts_name(#[trigger] names[i]) ==> (parse_i64_spec(time_part(names[i])) matches Some(
            t,
        ) && min_timestamp() <= t <= max_timestamp())
}

/// The entries of the playlist of a directory holding files with the given names: one
/// per segment file, sorted by time, each with its name, the duration from its name,
/// and its time as a UTC date.
pub fn plan_playlist(names: &Vec<String>) -> (r: Vec<PlannedSegment>)
    requires
        segment_times_writable(names_view(names@)),
    ensures
        r@.len() == sort_by_time(segment_files_of(names_view(names@))).len(),
        forall|k: int|
            0 <= k < r@.len() ==> {
                let f = #[trigger] sort_by_time(segment_files_of(names_view(names@)))[k];
                &&& r@[k].uri@ == f.name
                &&& r@[k].duration@ == f.duration
                &&& r@[k].program_date_time@ == utc_debug_text(f.time as i64)
            },
{
    let ghost nv = names_view(names@);
    proof {
        lemma_segment_files_in_range(nv);
        lemma_sort_by_time_permutes(segment_files_of(nv));
    }
    let files = segment_files(names);
    let ghost fv = files@.map_values(|f: SegmentFile| f@);
    let mut r: Vec<PlannedSegment> = Vec::new();
    let mut i: usize = 0;
    while i < files.len()
        invariant
            fv == files@.map_values(|f: SegmentFile| f@),
            fv == sort_by_time(segment_files_of(nv)),
            fv.to_multiset() == segment_files_of(nv).to_multiset(),
            forall|f: SegmentFileView| segment_files_of(nv).contains(f) ==> min_timestamp() <= f.time <= max_timestamp(),
            i <= files@.len(),
            r@.len() == i,
            forall|k: int|
                0 <= k < i ==> {
                    let f = #[trigger] fv[k];
                    &&& r@[k].uri@ == f.name
                    &&& r@[k].duration@ == f.duration
                    &&& r@[k].program_date_time@ == utc_debug_text(f.time as i64)
                },
        decreases files.len() - i,
    {
        let f = &files[i];
        proof {
            assert(fv[i as int] == f@);
            assert(fv.contains(f@));
            assert(fv.to_multiset().count(f@) > 0);
            assert(segment_files_of(nv).contains(f@));
        }
        let pdt = utc_timestamp_text(f.time);
        r.push(PlannedSegment { uri: f.name.clone(), duration: f.duration.clone(), program_date_time: pdt });
        i = i + 1;
    }
    r
}

proof fn lemma_segment_files_in_range(names: Seq<Seq<char>>)
    requires
        segment_times_writable(names),
    ensures
        segment_times_parse(names),
        forall|f: SegmentFileView|
            segment_files_of(names).contains(f) ==> min_timestamp() <= f.time <= max_timestamp(),
    decreases names.len(),
{
    if names.len() > 0 {
        let l = names.drop_last();
        assert(segment_times_writable(l)) by {
            assert forall|i: int| 0 <= i < l.len() && is_ts_name(#[trigger] l[i]) implies (parse_i64_spec(
                time_part(l[i]),
            ) matches Some(t) && min_timestamp() <= t <= max_timestamp()) by {
                assert(l[i] == names[i]);
            }
        }
        lemma_segment_files_in_range(l);
        assert forall|f: SegmentFileView| segment_files_of(names).contains(f) implies min_timestamp() <= f.time
            <= max_timestamp() by {
            if is_ts_name(names.last()) {
                let s = segment_files_of(l).push(segment_file_of(names.last()));
                let j = choose|j: int| 0 <= j < s.len() && s[j] == f;
                if j < s.len() - 1 {
                    assert(s[j] == segment_files_of(l)[j]);
                    assert(segment_files_of(l).contains(f));
                } else {
                    assert(names[names.len() - 1] == names.last());
                    assert(is_ts_name(names[names.len() - 1]));
                    assert(f == segment_file_of(names.last()));
                    let t = parse_i64_spec(time_part(names.last()));
                    assert(t matches Some(x) && min_timestamp() <= x <= max_timestamp());
                    assert(f.time == t->0);
                }
            } else {
                assert(segment_files_of(names) == segment_files_of(l));
            }
        }
    }
}

/// The decimal text of an integer holds neither `_` nor `.`.
proof fn lemma_int_text_chars(t: int)
    ensures
        !int_text(t).contains('_'),
        !int_text(t).contains('.'),
        int_text(t).len() > 0,
        int_text(t)[0] != '+',
{
    let n: nat = if t < 0 { (-t) as nat } else { t as nat };
    lemma_nat_text_value(n);
    let s = int_text(t);
    assert forall|k: int| 0 <= k < s.len() implies s[k] != '_' && s[k] != '.' by {
        if t < 0 {
            if k > 0 {
                assert(s[k] == nat_text(n)[k - 1]);
            }
        }
    }
}

/// The playlist builder reads back every file the downloader writes: a segment stored
/// under `<time>_<duration>.ts` is a segment file whose time is that time and whose
/// duration is that duration, whatever the duration's text.
pub proof fn lemma_downloader_names_read_back(t: i64, d: Seq<char>)
    ensures
        is_ts_name(segment_file_name(t as int, d)),
        parse_i64_spec(time_part(segment_file_name(t as int, d))) == Some(t as int),
        duration_part(segment_file_name(t as int, d)) == d,
        segment_file_of(segment_file_name(t as int, d)) == (SegmentFileView {
            time: t as int,
            duration: d,
            name: segment_file_name(t as int, d),
        }),
{
    let a = int_text(t as int);
    let name = segment_file_name(t as int, d);
    let stem = a + seq!['_'] + d;
    lemma_int_text_chars(t as int);
    crate::number::lemma_i64_text_round_trip(t);
    assert(name == stem + seq!['.', 't', 's']);
    assert(name.subrange(name.len() - 3, name.len() as int) =~= ts_suffix());
    assert(ts_stem(name) =~= stem);
    assert(stem[a.len() as int] == '_');
    assert(stem.contains('_'));
    lemma_before_char_concat(a, '_', d);
    assert(stem.skip(a.len() + 1int) =~= d);
    // The text before the first `.` runs past the `_` that follows the time.
    let p = dot_time(name);
    lemma_before_char(name, '.');
    assert(name[name.len() - 3] == '.');
    assert(name.contains('.'));
    assert(p.len() > a.len()) by {
        if p.len() <= a.len() {
            if p.len() < a.len() {
                assert(name[p.len() as int] == a[p.len() as int]);
                assert(a.contains('.'));
            } else {
                assert(name[p.len() as int] == '_');
            }
        }
    }
    assert(p[a.len() as int] == '_') by {
        assert(p[a.len() as int] == name.subrange(0, p.len() as int)[a.len() as int]);
    }
    assert(signed_text_value(p) is None) by {
        if p.len() > 0 && p[0] == '-' {
            assert(p.drop_first()[a.len() - 1] == '_');
        } else {
            assert(p[0] == a[0]);
        }
    }
    assert(!is_dot_name(name));
}

/// Sorting keeps files with equal times in the order they came in: the files with any
/// one time come out in the same order as in the input.
pub proof fn lemma_sort_by_time_stable(s: Seq<SegmentFileView>, t: int)
    ensures
        sort_by_time(s).filter(|f: SegmentFileView| f.time == t) == s.filter(|f: SegmentFileView| f.time == t),
    decreases s.len(),
{
    let pred = |f: SegmentFileView| f.time == t;
    reveal(Seq::filter);
    if s.len() > 0 {
        lemma_sort_by_time_stable(s.drop_last(), t);
        let sorted = sort_by_time(s.drop_last());
        let x = s.last();
        let p = insert_pos(sorted, x.time);
        lemma_insert_pos(sorted, x.time);
        let pre = sorted.subrange(0, p);
        let suf = sorted.subrange(p, sorted.len() as int);
        assert(sorted =~= pre + suf);
        assert(sorted.insert(p, x) =~= pre.push(x) + suf);
        Seq::filter_distributes_over_add(pre, suf, pred);
        Seq::filter_distributes_over_add(pre.push(x), suf, pred);
        assert(pre.push(x).drop_last() =~= pre);
        if x.time == t {
            assert(suf.filter(pred).len() == 0) by {
                assert forall|k: int| 0 <= k < suf.len() implies !pred(#[trigger] suf[k]) by {
                    assert(suf[k] == sorted[p + k]);
                }
                suf.lemma_all_neg_filter_empty(pred);
            }
            assert(suf.filter(pred) =~= Seq::<SegmentFileView>::empty());
            assert(pre.filter(pred) + suf.filter(pred) =~= pre.filter(pred));
            assert(pre.push(x).filter(pred) == pre.filter(pred).push(x));
            assert(pre.filter(pred).push(x) + suf.filter(pred) =~= pre.filter(pred).push(x));
        } else {
            assert(pre.push(x).filter(pred) == pre.filter(pred));
        }
    }
}

/// The segment files of a directory are exactly its `.ts` names, in directory order,
/// each read as a segment file.
pub proof fn lemma_segment_files_are_the_ts_names(names: Seq<Seq<char>>)
    ensures
        segment_files_of(names) == names.filter(|n: Seq<char>| is_ts_name(n)).map_values(
            |n: Seq<char>| segment_file_of(n),
        ),
    decreases names.len(),
{
    let pred = |n: Seq<char>| is_ts_name(n);
    let f = |n: Seq<char>| segment_file_of(n);
    reveal(Seq::filter);
    if names.len() == 0 {
        assert(names.filter(pred) =~= Seq::<Seq<char>>::empty());
        assert(segment_files_of(names) =~= names.filter(pred).map_values(f));
    } else {
        lemma_segment_files_are_the_ts_names(names.drop_last());
        let sub = names.drop_last().filter(pred);
        if pred(names.last()) {
            assert(names.filter(pred) == sub.push(names.last()));
            assert(sub.push(names.last()).map_values(f) =~= sub.map_values(f).push(f(names.last())));
        } else {
            assert(names.filter(pred) == sub);
        }
    }
}

} // verus!

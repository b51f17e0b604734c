use twitchdl::playlist::{
    check_one_dir, create_for_all, create_for_new, plan_playlist, playlist_path, scan_results, segment_files,
    segment_times_ok,
    try_check_one_dir, DirEntryInfo, ScanResult,
};

fn names(v: &[&str]) -> Vec<String> {
    v.iter().map(|s| s.to_string()).collect()
}

fn dir(name: &str, has_list: bool) -> ScanResult {
    ScanResult { name: name.to_string(), path: format!("/d/{}", name), has_list }
}

#[test]
fn segment_files_are_sorted_stably_by_time() {
    let files = segment_files(&names(&["30.2.ts", "playlist.m3u8", "10.2.5.ts", "20.1.ts", "10.4.ts", "notes"]));
    let got: Vec<(i64, &str, &str)> = files.iter().map(|f| (f.time, f.duration.as_str(), f.name.as_str())).collect();
    assert_eq!(got, vec![(10, "2", "10.2.5.ts"), (10, "4", "10.4.ts"), (20, "1", "20.1.ts"), (30, "2", "30.2.ts")]);
}

#[test]
fn a_name_with_one_dot_has_the_suffix_as_duration() {
    let files = segment_files(&names(&["12.ts"]));
    assert_eq!(files[0].time, 12);
    assert_eq!(files[0].duration, "ts");
}

#[test]
fn no_segment_files_gives_an_empty_plan() {
    assert_eq!(segment_files(&names(&["a.txt", "b"])).len(), 0);
    assert_eq!(plan_playlist(&names(&[])).len(), 0);
}

#[test]
fn planned_segments_carry_utc_dates() {
    let plan = plan_playlist(&names(&["1552472816.2.ts", "1552472814.2.ts"]));
    assert_eq!(plan.len(), 2);
    assert_eq!(plan[0].uri, "1552472814.2.ts");
    assert_eq!(plan[0].duration, "2");
    assert_eq!(plan[0].program_date_time, "2019-03-13T10:26:54Z");
    assert_eq!(plan[1].program_date_time, "2019-03-13T10:26:56Z");
}

#[test]
fn dates_at_the_ends_of_the_range() {
    let plan = plan_playlist(&names(&["-8334601228800.1.ts", "8210266876799.1.ts", "0.1.ts"]));
    assert_eq!(plan.len(), 3);
    assert_eq!(plan[1].program_date_time, "1970-01-01T00:00:00Z");
}

#[test]
fn playlist_path_joins_like_pathbuf() {
    assert_eq!(playlist_path("/web/d"), "/web/d/playlist.m3u8");
    assert_eq!(playlist_path("/web/d/"), "/web/d/playlist.m3u8");
    assert_eq!(playlist_path(""), "playlist.m3u8");
    let mut p = std::path::PathBuf::from("/web/d");
    p.push("playlist.m3u8");
    assert_eq!(playlist_path("/web/d"), p.to_str().unwrap());
}

#[test]
fn one_directory_is_checked() {
    let r = check_one_dir("/web/0313_10_26_54_owl".to_string(), true, true).unwrap();
    assert_eq!(r.name, "0313_10_26_54_owl");
    assert_eq!(r.path, "/web/0313_10_26_54_owl");
    assert!(r.has_list);
    assert!(check_one_dir("/web/missing".to_string(), false, false).is_none());
    let trailing = check_one_dir("/web/dir/".to_string(), true, false).unwrap();
    assert_eq!(trailing.name, "dir");
}

#[test]
fn a_directory_without_a_name_is_refused() {
    assert!(try_check_one_dir("/".to_string(), true, false).is_none());
    assert!(try_check_one_dir("/web/..".to_string(), true, false).is_none());
    assert!(try_check_one_dir("/".to_string(), false, false).unwrap().is_none());
    assert_eq!(try_check_one_dir("/web/a".to_string(), true, false).unwrap().unwrap().name, "a");
}

#[test]
fn only_directories_are_scanned() {
    let entries = vec![
        DirEntryInfo { name: "a".to_string(), path: "/d/a".to_string(), is_dir: true, has_list: false },
        DirEntryInfo { name: "f.ts".to_string(), path: "/d/f.ts".to_string(), is_dir: false, has_list: false },
        DirEntryInfo { name: "b".to_string(), path: "/d/b".to_string(), is_dir: true, has_list: true },
    ];
    let r = scan_results(entries);
    assert_eq!(r.len(), 2);
    assert_eq!(r[0].name, "a");
    assert_eq!(r[1].path, "/d/b");
    assert!(r[1].has_list);
}

#[test]
fn new_mode_skips_directories_with_a_playlist() {
    let r = create_for_new(vec![dir("a", true), dir("b", false), dir("c", false), dir("d", true)]);
    let got: Vec<&str> = r.iter().map(|d| d.name.as_str()).collect();
    assert_eq!(got, vec!["b", "c"]);
    assert_eq!(create_for_all(vec![dir("a", true), dir("b", false)]).len(), 2);
}

#[test]
fn downloader_names_are_split_at_the_underscore() {
    let names = names(&["1552444016_2.002.ts", "playlist.m3u8", "1552444014_2.ts", "1552444015_1.5.ts"]);
    assert!(segment_times_ok(&names));
    let files = segment_files(&names);
    let got: Vec<(i64, &str, &str)> = files.iter().map(|f| (f.time, f.duration.as_str(), f.name.as_str())).collect();
    assert_eq!(
        got,
        vec![
            (1552444014, "2", "1552444014_2.ts"),
            (1552444015, "1.5", "1552444015_1.5.ts"),
            (1552444016, "2.002", "1552444016_2.002.ts"),
        ]
    );
    let plan = plan_playlist(&names);
    assert_eq!(plan.len(), 3);
    assert_eq!(plan[0].uri, "1552444014_2.ts");
    assert_eq!(plan[0].duration, "2");
    assert_eq!(plan[2].duration, "2.002");
}

#[test]
fn unreadable_or_unwritable_times_are_reported() {
    assert!(segment_times_ok(&names(&["a.txt", "12.3.ts"])));
    assert!(!segment_times_ok(&names(&["x_2.ts"])));
    assert!(!segment_times_ok(&names(&["abc.ts"])));
    assert!(!segment_times_ok(&names(&["8210266876800_1.ts"])));
    assert!(segment_times_ok(&names(&["8210266876799_1.ts"])));
}

#[test]
fn names_with_a_time_before_the_first_dot_keep_the_dot_split() {
    let names = names(&["1552444016.2.part_1.ts", "1552444014_2.ts"]);
    assert!(segment_times_ok(&names));
    let files = segment_files(&names);
    let got: Vec<(i64, &str)> = files.iter().map(|f| (f.time, f.duration.as_str())).collect();
    assert_eq!(got, vec![(1552444014, "2"), (1552444016, "2")]);
}

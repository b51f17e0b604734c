use twitchdl::manager::{channel_output, media_path, DownloadMedia, Manager, SegmentEntry, QUEUED_SIZE};

fn entry(time: i64, duration: &str, url: &str) -> SegmentEntry {
    SegmentEntry { time, duration: duration.to_string(), url: url.to_string() }
}

#[test]
fn new_manager_is_empty() {
    let m = Manager::new(2, 10);
    assert_eq!(m.get_total(), 0);
    assert_eq!(m.get_downloaded(), 0);
    assert_eq!(m.get_thread(), 0);
    assert_eq!(m.list_count(), 0);
    assert_eq!(m.pool_limits(), (2, 10));
}

#[test]
fn segments_are_scheduled_once() {
    let mut m = Manager::new(2, 10);
    let first = vec![entry(100, "2", "https://a/1.ts"), entry(102, "2", "https://a/2.ts")];
    let got = m.admit_segments("/out/dir", &first);
    assert_eq!(got.len(), 2);
    assert_eq!(got[0].name, "100_2.ts");
    assert_eq!(got[0].url, "https://a/1.ts");
    assert_eq!(got[0].output, "/out/dir");
    assert_eq!(got[1].name, "102_2.ts");
    assert_eq!(m.get_total(), 2);
    let second = vec![entry(102, "2", "https://a/2.ts"), entry(104, "2.5", "https://a/3.ts"), entry(104, "2.5", "https://a/3.ts")];
    let got2 = m.admit_segments("/out/dir", &second);
    assert_eq!(got2.len(), 1);
    assert_eq!(got2[0].name, "104_2.5.ts");
    assert_eq!(m.get_total(), 3);
}

#[test]
fn negative_times_are_written_with_a_sign() {
    let mut m = Manager::new(1, 1);
    let got = m.admit_segments("o", &vec![entry(-3, "1", "u")]);
    assert_eq!(got[0].name, "-3_1.ts");
}

#[test]
fn the_oldest_url_is_forgotten_when_the_queue_is_full() {
    let mut m = Manager::new(2, 10);
    let many: Vec<SegmentEntry> = (0..QUEUED_SIZE as i64).map(|i| entry(i, "1", &format!("u{}", i))).collect();
    assert_eq!(m.admit_segments("o", &many).len(), QUEUED_SIZE);
    // One more URL pushes out "u0"; "u1" is still remembered.
    assert_eq!(m.admit_segments("o", &vec![entry(1000, "1", "new")]).len(), 1);
    assert_eq!(m.admit_segments("o", &vec![entry(1, "1", "u1")]).len(), 0);
    assert_eq!(m.admit_segments("o", &vec![entry(0, "1", "u0")]).len(), 1);
    assert_eq!(m.get_total(), QUEUED_SIZE as u64 + 2);
}

#[test]
fn idle_lists_are_handed_out_once() {
    let mut m = Manager::new(2, 10);
    m.add_list("out/a".to_string(), "https://a.m3u8".to_string());
    m.add_list("out/b".to_string(), "https://b.m3u8".to_string());
    let taken = m.take_idle_lists();
    assert_eq!(taken.len(), 2);
    assert_eq!(taken[0].0, 0);
    assert_eq!(taken[0].1.url, "https://a.m3u8");
    assert_eq!(taken[1].0, 1);
    assert_eq!(taken[1].1.output, "out/b");
    assert!(!taken[1].1.is_running);
    assert_eq!(m.take_idle_lists().len(), 0);
    m.finish_list(1);
    let again = m.take_idle_lists();
    assert_eq!(again.len(), 1);
    assert_eq!(again[0].0, 1);
}

#[test]
fn counters_move_by_one() {
    let mut m = Manager::new(2, 10);
    m.record_downloaded();
    m.record_downloaded();
    assert_eq!(m.get_downloaded(), 2);
    m.thread_started();
    m.thread_started();
    m.thread_finished();
    assert_eq!(m.get_thread(), 1);
}

#[test]
fn output_paths() {
    assert_eq!(channel_output("/web", "0313_10_26_54", "overwatchleague", ""), "/web/0313_10_26_54_overwatchleague");
    assert_eq!(channel_output("/web", "0313_10_26_54", "owl_pov", "ameng"), "/web/0313_10_26_54_ameng");
    let media = DownloadMedia { output: "/web/x".to_string(), name: "1_2.ts".to_string(), url: "u".to_string() };
    assert_eq!(media_path(&media), "/web/x/1_2.ts");
}

#[test]
fn counters_and_fetches_follow_the_events() {
    let mut m = Manager::new(1, 4);
    m.add_list("/o/a".to_string(), "https://a/p.m3u8".to_string());
    m.add_list("/o/b".to_string(), "https://b/p.m3u8".to_string());
    let first = m.take_idle_lists();
    assert_eq!(first.iter().map(|p| p.0).collect::<Vec<_>>(), vec![0, 1]);
    assert!(m.take_idle_lists().is_empty());
    let media = m.admit_segments("/o/a", &vec![entry(1, "2", "https://a/1.ts"), entry(3, "2", "https://a/2.ts")]);
    m.finish_list(0);
    let again = m.take_idle_lists();
    assert_eq!(again.iter().map(|p| p.0).collect::<Vec<_>>(), vec![0]);
    let before = (m.get_total(), m.get_downloaded());
    for _ in &media {
        m.record_downloaded();
        assert!(m.get_downloaded() <= m.get_total());
    }
    assert_eq!(m.get_total(), before.0);
    assert_eq!(m.get_downloaded(), before.1 + media.len() as u64);
    m.thread_started();
    m.thread_started();
    m.thread_finished();
    assert_eq!(m.get_thread(), 1);
}

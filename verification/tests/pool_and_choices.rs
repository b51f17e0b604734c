use twitchdl::cli::{auto_filter, parse_channel_indices, parse_count, parse_dir_selection, parse_mode, split_channel_names, DirSelection};
use twitchdl::legacy::{
    admit_segments_unbounded, after_download, choose_download_thread, download_loop_step, list_poll_step, LoopAction,
    LoopEvent, ManageMessage, ThreadChoice,
};
use twitchdl::manager::SegmentEntry;
use twitchdl::threadpool::{apply_wakeup, plan_execute, reap_check_completes, Wakeup, WorkerStatus};
use twitchdl::twitch::OwlChannel;

fn w(is_sleep: bool, is_kill: bool, slept_secs: u64) -> WorkerStatus {
    WorkerStatus { is_sleep, is_kill, slept_secs }
}

#[test]
fn a_sleeping_worker_is_woken_first() {
    let ws = vec![w(false, false, 0), w(true, false, 5), w(true, false, 50)];
    let p = plan_execute(&ws, 2, 10, 100);
    assert!(matches!(p.wakeup, Wakeup::Wake(1)));
    // The last worker has slept long enough and the pool is above its lower size.
    assert_eq!(p.reap, Some(2));
}

#[test]
fn a_worker_is_started_when_none_sleeps() {
    let ws = vec![w(false, false, 0), w(false, false, 0)];
    let p = plan_execute(&ws, 2, 10, 3);
    assert!(matches!(p.wakeup, Wakeup::Spawn));
    assert_eq!(p.reap, None);
    assert!(matches!(plan_execute(&ws, 2, 10, 2).wakeup, Wakeup::Nothing));
    assert!(matches!(plan_execute(&ws, 2, 2, 30).wakeup, Wakeup::Nothing));
    assert_eq!(apply_wakeup(&ws, Wakeup::Spawn).len(), 3);
}

#[test]
fn the_reap_check_completes_only_when_no_inner_worker_is_reapable() {
    let ws = vec![w(true, false, 40), w(false, false, 0), w(false, false, 0)];
    assert!(!reap_check_completes(&ws, 1));
    assert!(reap_check_completes(&ws, 3));
    let ok = vec![w(false, false, 0), w(true, false, 40)];
    assert!(reap_check_completes(&ok, 1));
    let killed = vec![w(true, true, 40), w(false, false, 0)];
    assert!(reap_check_completes(&killed, 1));
}

#[test]
fn playlist_poll_gives_up_after_four_failures_in_a_row() {
    let mut retry = 0;
    for _ in 0..3 {
        let (r, go) = list_poll_step(retry, false);
        assert!(go);
        retry = r;
    }
    assert_eq!(retry, 3);
    assert_eq!(list_poll_step(retry, true), (0, true));
    assert_eq!(list_poll_step(retry, false), (4, false));
}

#[test]
fn download_loop_decisions() {
    let a = download_loop_step(LoopEvent::Message(ManageMessage::MEDIA("o".into(), "n".into(), "u".into())));
    assert!(matches!(a, LoopAction::Download(ref o, ref n, ref u) if o == "o" && n == "n" && u == "u"));
    assert!(matches!(download_loop_step(LoopEvent::Message(ManageMessage::LIST("o".into(), "u".into()))), LoopAction::Continue));
    assert!(matches!(download_loop_step(LoopEvent::Disconnected), LoopAction::Exit));
    assert!(matches!(download_loop_step(LoopEvent::Empty(Some(61))), LoopAction::Exit));
    assert!(matches!(download_loop_step(LoopEvent::Empty(Some(60))), LoopAction::Continue));
    assert!(matches!(download_loop_step(LoopEvent::Empty(None)), LoopAction::Continue));
    assert!(after_download(true, "o".into(), "n".into(), "u".into()).is_none());
    assert!(matches!(after_download(false, "o".into(), "n".into(), "u".into()), Some(ManageMessage::MEDIA(..))));
}

#[test]
fn download_thread_choice() {
    assert!(matches!(choose_download_thread(&vec![false, true, true], 0), ThreadChoice::Use(1)));
    assert!(matches!(choose_download_thread(&vec![], 0), ThreadChoice::Create));
    assert!(matches!(choose_download_thread(&vec![false], 0), ThreadChoice::Create));
    assert!(matches!(choose_download_thread(&vec![false, false, false], 2), ThreadChoice::Create));
    for _ in 0..20 {
        match choose_download_thread(&vec![false, false, false], 1) {
            ThreadChoice::Random(i) => assert!(i < 2),
            _ => panic!("expected a random pick"),
        }
    }
    assert!(matches!(choose_download_thread(&vec![false, false], 0), ThreadChoice::Random(0)));
}

#[test]
fn unbounded_dedup_keeps_every_url() {
    let mut queued = vec!["a".to_string()];
    let entries = vec![
        SegmentEntry { time: 1, duration: "2".into(), url: "a".into() },
        SegmentEntry { time: 2, duration: "2".into(), url: "b".into() },
        SegmentEntry { time: 3, duration: "2".into(), url: "b".into() },
    ];
    let got = admit_segments_unbounded(&mut queued, "out", &entries);
    assert_eq!(got.len(), 1);
    assert_eq!(got[0].name, "2_2.ts");
    assert_eq!(queued, vec!["a".to_string(), "b".to_string()]);
}

#[test]
fn typed_answers() {
    assert_eq!(parse_mode("2", 1), 2);
    assert_eq!(parse_mode("", 1), 1);
    assert_eq!(parse_mode("x", 0), 0);
    assert_eq!(parse_count("4", 2), 4);
    assert_eq!(parse_count("-1", 10), 10);
    assert!(matches!(parse_dir_selection("new"), DirSelection::New));
    assert!(matches!(parse_dir_selection("all"), DirSelection::All));
    assert!(matches!(parse_dir_selection("3"), DirSelection::Index(3)));
    assert!(matches!(parse_dir_selection("zz"), DirSelection::Index(0)));
    match parse_dir_selection("1,x,2") {
        DirSelection::Indices(v) => assert_eq!(v, vec![1, 9999, 2]),
        _ => panic!("expected indices"),
    }
    assert_eq!(parse_channel_indices("0,2"), vec![0, 2]);
    assert_eq!(parse_channel_indices("q"), vec![9999]);
    assert_eq!(split_channel_names("a,b"), vec!["a".to_string(), "b".to_string()]);
    assert_eq!(split_channel_names("esl_csgo"), vec!["esl_csgo".to_string()]);
}

fn owl(name: &str, player: &str, team: &str) -> OwlChannel {
    OwlChannel { id: "i".into(), channel: "c".into(), name: name.into(), player: player.into(), team: team.into() }
}

#[test]
fn automatic_mode_filter() {
    let default = auto_filter(String::new(), String::new(), false, false);
    assert!(default.three_screen);
    assert!(default.wants(&owl("OWL Main Stream / Map", "", "")));
    assert!(!default.wants(&owl("ameng POV", "ameng", "Chengdu")));
    let pov = auto_filter(String::new(), String::new(), true, false);
    assert!(!pov.three_screen);
    assert!(pov.wants(&owl("ameng POV", "", "")));
    assert!(pov.wants(&owl("Map", "", "")));
    assert!(!pov.wants(&owl("Maps", "", "")));
    let team = auto_filter(String::new(), "Chengdu".into(), false, false);
    assert!(team.wants(&owl("x", "", "Chengdu Hunters")));
    assert!(!team.wants(&owl("x", "", "chengdu")));
    let player = auto_filter("ameng".into(), String::new(), false, false);
    assert!(player.wants(&owl("x", "ameng", "")));
}

#[test]
fn a_woken_worker_is_not_stopped() {
    let ws = vec![w(false, false, 0), w(true, false, 50)];
    let p = plan_execute(&ws, 1, 10, 100);
    assert!(matches!(p.wakeup, Wakeup::Wake(1)));
    assert_eq!(p.reap, None);
    let spawned = plan_execute(&vec![w(false, false, 0)], 0, 10, 100);
    assert!(matches!(spawned.wakeup, Wakeup::Spawn));
    assert_eq!(spawned.reap, None);
}

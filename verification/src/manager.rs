//! The download manager's bookkeeping: the playlists being followed, the
//! bounded queue of segment URLs already scheduled, and the progress counters.
//! The threads, timers and network calls that drive it live with the caller.

use vstd::prelude::*;
use vstd::multiset::Multiset;
use crate::number::{i64_text, int_text};
use crate::strings::{push_char, push_str};

verus! {

/// How many segment URLs the manager remembers for de-duplication.
pub const QUEUED_SIZE: usize = 400;

/// A playlist being followed: where its segments go, its URL, and whether a fetch of it is under way.
pub struct DownloadList {
    pub output: String,
    pub url: String,
    pub is_running: bool,
}

/// One segment to download: the output directory, the file name and the segment URL.
pub struct DownloadMedia {
    pub output: String,
    pub name: String,
    pub url: String,
}

/// One segment listed by a media playlist: its start time (seconds since the epoch),
/// its duration as written in the playlist, and its URL.
pub struct SegmentEntry {
    pub time: i64,
    pub duration: String,
    pub url: String,
}

/// The abstract value of a listed segment.
pub struct SegmentEntryView {
    pub time: int,
    pub duration: Seq<char>,
    pub url: Seq<char>,
}

impl View for SegmentEntry {
    type V = SegmentEntryView;

    open spec fn view(&self) -> SegmentEntryView {
        SegmentEntryView { time: self.time as int, duration: self.duration@, url: self.url@ }
    }
}

/// The abstract value of a followed playlist.
pub struct ListView {
    pub output: Seq<char>,
    pub url: Seq<char>,
    pub is_running: bool,
}

/// The abstract value of a segment to download.
pub struct MediaView {
    pub output: Seq<char>,
    pub name: Seq<char>,
    pub url: Seq<char>,
}

impl View for DownloadList {
    type V = ListView;

    open spec fn view(&self) -> ListView {
        ListView { output: self.output@, url: self.url@, is_running: self.is_running }
    }
}

impl View for DownloadMedia {
    type V = MediaView;

    open spec fn view(&self) -> MediaView {
        MediaView { output: self.output@, name: self.name@, url: self.url@ }
    }
}

/// The abstract state of the manager.
pub struct ManagerView {
    pub lists: Seq<ListView>,
    pub queued: Seq<Seq<char>>,
    pub total: nat,
    pub downloaded: nat,
    pub threads: nat,
    pub min_thread: nat,
    pub max_thread: nat,
}

/// The download manager's state.
pub struct Manager {
    list_queue: Vec<DownloadList>,
    queued: Vec<String>,
    total: u64,
    downloaded: u64,
    thread: u16,
    min_thread: usize,
    max_thread: usize,
}

impl View for Manager {
    type V = ManagerView;

    closed spec fn view(&self) -> ManagerView {
        ManagerView {
            lists: self.list_queue@.map_values(|l: DownloadList| l@),
            queued: self.queued@.map_values(|s: String| s@),
            total: self.total as nat,
            downloaded: self.downloaded as nat,
            threads: self.thread as nat,
            min_thread: self.min_thread as nat,
            max_thread: self.max_thread as nat,
        }
    }
}

/// The queue after remembering `url`: the oldest entry is dropped when the queue is full.
pub open spec fn bounded_push(q: Seq<Seq<char>>, url: Seq<char>) -> Seq<Seq<char>> {
    if q.len() >= QUEUED_SIZE {
        q.drop_first().push(url)
    } else {
        q.push(url)
    }
}

/// Processing the URLs of a listing in order against the queue `q`: a URL already in
/// the queue is skipped, any other is remembered. Gives the final queue and the
/// positions (in `urls`) of the URLs that were taken.
pub open spec fn admit_all(q: Seq<Seq<char>>, urls: Seq<Seq<char>>) -> (Seq<Seq<char>>, Seq<int>)
    decreases urls.len(),
{
    if urls.len() == 0 {
        (q, Seq::<int>::empty())
    } else {
        let prev = admit_all(q, urls.drop_last());
        if prev.0.contains(urls.last()) {
            prev
        } else {
            (bounded_push(prev.0, urls.last()), prev.1.push(urls.len() - 1))
        }
    }
}

/// The last `n` items of `s` (all of `s` when it is shorter).
pub open spec fn last_n<A>(s: Seq<A>, n: nat) -> Seq<A> {
    if s.len() <= n {
        s
    } else {
        s.skip(s.len() - n)
    }
}

/// The URLs of a listing.
pub open spec fn entry_urls(entries: Seq<SegmentEntry>) -> Seq<Seq<char>> {
    entries.map_values(|e: SegmentEntry| e.url@)
}

/// The file name a segment is stored under: `<time>_<duration>.ts`.
pub open spec fn segment_file_name(time: int, duration: Seq<char>) -> Seq<char> {
    int_text(time) + seq!['_'] + duration + seq!['.', 't', 's']
}

/// The positions of the playlists that are not being fetched, in order.
pub open spec fn idle_positions(lists: Seq<ListView>) -> Seq<int>
    decreases lists.len(),
{
    if lists.len() == 0 {
        Seq::<int>::empty()
    } else {
        let p = idle_positions(lists.drop_last());
        if !lists.last().is_running {
            p.push(lists.len() - 1)
        } else {
            p
        }
    }
}

/// The same playlists, all marked as being fetched.
pub open spec fn all_running(lists: Seq<ListView>) -> Seq<ListView> {
    Seq::new(lists.len(), |i: int| ListView { is_running: true, ..lists[i] })
}

/// Where a downloaded segment is written: `<output>/<name>`.
pub open spec fn media_path_text(output: Seq<char>, name: Seq<char>) -> Seq<char> {
    output + seq!['/'] + name
}

/// The directory of a newly followed channel: `<dir>/<stamp>_<label>`, where the label
/// is the given display name, or the channel name when the display name is empty.
pub open spec fn channel_output_text(
    output_dir: Seq<char>,
    stamp: Seq<char>,
    channel: Seq<char>,
    name: Seq<char>,
) -> Seq<char> {
    output_dir + seq!['/'] + stamp + seq!['_'] + (if name.len() == 0 { channel } else { name })
}

impl Manager {
    /// The manager's invariant: the remembered URLs are distinct and at most `QUEUED_SIZE`.
    pub open spec fn wf_view(v: ManagerView) -> bool {
        &&& v.queued.no_duplicates()
        &&& v.queued.len() <= QUEUED_SIZE
    }

    /// The invariant of this manager.
    pub open spec fn wf(&self) -> bool {
        Self::wf_view(self@)
    }

    /// A manager with nothing followed, nothing remembered and zeroed counters,
    /// recording the worker pool's lower and upper size.
    pub fn new(min: usize, max: usize) -> (m: Manager)
        ensures
            m.wf(),
            m@.lists.len() == 0,
            m@.queued.len() == 0,
            m@.total == 0,
            m@.downloaded == 0,
            m@.threads == 0,
            m@.min_thread == min,
            m@.max_thread == max,
            m@ == initial_ledger(min as nat, max as nat).state,
    {
        let m = Manager {
            list_queue: Vec::new(),
            queued: Vec::new(),
            total: 0,
            downloaded: 0,
            thread: 0,
            min_thread: min,
            max_thread: max,
        };
        assert(m@.queued =~= Seq::<Seq<char>>::empty());
        assert(m@.lists =~= Seq::<ListView>::empty());
        m
    }

    /// How many segments have been scheduled.
    pub fn get_total(&self) -> (r: u64)
        ensures
            r == self@.total,
    {
        self.total
    }

    /// How many segments have been written.
    pub fn get_downloaded(&self) -> (r: u64)
        ensures
            r == self@.downloaded,
    {
        self.downloaded
    }

    /// How many worker threads are running.
    pub fn get_thread(&self) -> (r: u16)
        ensures
            r == self@.threads,
    {
        self.thread
    }

    /// The lower and upper size of the worker pool.
    pub fn pool_limits(&self) -> (r: (usize, usize))
        ensures
            r.0 == self@.min_thread,
            r.1 == self@.max_thread,
    {
        (self.min_thread, self.max_thread)
    }

    /// How many playlists are followed.
    pub fn list_count(&self) -> (r: usize)
        ensures
            r == self@.lists.len(),
    {
        self.list_queue.len()
    }

    /// Records that a worker thread started.
    pub fn thread_started(&mut self)
        requires
            old(self)@.threads < u16::MAX,
        ensures
            final(self)@ == (ManagerView { threads: old(self)@.threads + 1, ..old(self)@ }),
            final(self)@ == event_effect(old(self)@, ManagerEvent::ThreadIn),
    {
        self.thread = self.thread + 1;
        assert(self@.lists =~= old(self)@.lists);
        assert(self@.queued =~= old(self)@.queued);
    }

    /// Records that a worker thread ended.
    pub fn thread_finished(&mut self)
        requires
            old(self)@.threads > 0,
        ensures
            final(self)@ == (ManagerView { threads: (old(self)@.threads - 1) as nat, ..old(self)@ }),
            final(self)@ == event_effect(old(self)@, ManagerEvent::ThreadOut),
    {
        self.thread = self.thread - 1;
        assert(self@.lists =~= old(self)@.lists);
        assert(self@.queued =~= old(self)@.queued);
    }

    /// Starts following a playlist whose segments go to `output`; no fetch of it is under way yet.
    pub fn add_list(&mut self, output: String, url: String)
        ensures
            final(self)@ == (ManagerView {
                lists: old(self)@.lists.push(ListView { output: output@, url: url@, is_running: false }),
                ..old(self)@
            }),
            final(self)@ == event_effect(old(self)@, ManagerEvent::Follow { output: output@, url: url@ }),
    {
        self.list_queue.push(DownloadList { output, url, is_running: false });
        assert(self@.lists =~= old(self)@.lists.push(
            ListView { output: output@, url: url@, is_running: false },
        ));
        assert(self@.queued =~= old(self)@.queued);
    }

    /// Marks every followed playlist that is not being fetched as being fetched, and
    /// gives those playlists with their positions, in order.
    pub fn take_idle_lists(&mut self) -> (r: Vec<(usize, DownloadList)>)
        ensures
            final(self)@ == (ManagerView { lists: all_running(old(self)@.lists), ..old(self)@ }),
            final(self)@ == event_effect(old(self)@, ManagerEvent::TakeIdle),
            r@.map_values(|p: (usize, DownloadList)| p.0 as int) == idle_positions(old(self)@.lists),
            forall|k: int|
                0 <= k < r@.len() ==> (#[trigger] r@[k]).1@ == old(self)@.lists[r@[k].0 as int],
    {
        let ghost before = self@;
        let mut r: Vec<(usize, DownloadList)> = Vec::new();
        let n = self.list_queue.len();
        let mut i: usize = 0;
        while i < n
            invariant
                n == self.list_queue@.len(),
                n == before.lists.len(),
                i <= n,
                self.queued@ == old(self).queued@,
                self.total == old(self).total,
                self.downloaded == old(self).downloaded,
                self.thread == old(self).thread,
                self.min_thread == old(self).min_thread,
                self.max_thread == old(self).max_thread,
                before == old(self)@,
                forall|j: int| 0 <= j < i ==> #[trigger] self.list_queue@[j]@ == (ListView {
                    is_running: true,
                    ..before.lists[j]
                }),
                forall|j: int| i <= j < n ==> #[trigger] self.list_queue@[j]@ == before.lists[j],
                r@.map_values(|p: (usize, DownloadList)| p.0 as int) == idle_positions(
                    before.lists.take(i as int),
                ),
                forall|k: int|
                    0 <= k < r@.len() ==> (#[trigger] r@[k]).0 < i && r@[k].1@ == before.lists[r@[k].0 as int],
            decreases n - i,
        {
            assert(self.list_queue@[i as int]@ == before.lists[i as int]);
            proof {
                assert(before.lists.take(i + 1).drop_last() == before.lists.take(i as int));
                assert(before.lists.take(i + 1).last() == before.lists[i as int]);
            }
            let ghost r_before = r@;
            if !self.list_queue[i].is_running {
                let copy = DownloadList {
                    output: self.list_queue[i].output.clone(),
                    url: self.list_queue[i].url.clone(),
                    is_running: false,
                };
                r.push((i, copy));
                assert(r@.map_values(|p: (usize, DownloadList)| p.0 as int) =~= r_before.map_values(
                    |p: (usize, DownloadList)| p.0 as int,
                ).push(i as int));
                let mut entry = self.list_queue.remove(i);
                entry.is_running = true;
                self.list_queue.insert(i, entry);
            }
            i = i + 1;
        }
        proof {
            assert(before.lists.take(n as int) == before.lists);
            assert(self@.lists =~= all_running(before.lists)) by {
                assert forall|j: int| 0 <= j < n implies #[trigger] self@.lists[j] == all_running(
                    before.lists,
                )[j] by {
                    assert(self@.lists[j] == self.list_queue@[j]@);
                }
            }
            assert(self@.queued =~= before.queued);
        }
        r
    }

    /// Records that the fetch of the playlist at `index` has ended.
    pub fn finish_list(&mut self, index: usize)
        requires
            index < old(self)@.lists.len(),
        ensures
            final(self)@ == (ManagerView {
                lists: old(self)@.lists.update(
                    index as int,
                    ListView { is_running: false, ..old(self)@.lists[index as int] },
                ),
                ..old(self)@
            }),
            final(self)@ == event_effect(old(self)@, ManagerEvent::ListDone { index: index as int }),
    {
        let mut entry = self.list_queue.remove(index);
        entry.is_running = false;
        self.list_queue.insert(index, entry);
        assert(self@.lists =~= old(self)@.lists.update(
            index as int,
            ListView { is_running: false, ..old(self)@.lists[index as int] },
        ));
        assert(self@.queued =~= old(self)@.queued);
    }

    /// Counts `n` more scheduled segments (the first manager counts the segments it
    /// takes from each listing this way).
    pub fn count_scheduled(&mut self, n: u64)
        requires
            old(self)@.total + n <= u64::MAX,
        ensures
            final(self)@ == (ManagerView { total: old(self)@.total + n as nat, ..old(self)@ }),
            final(self)@ == event_effect(old(self)@, ManagerEvent::Counted { n: n as nat }),
    {
        self.total = self.total + n;
        assert(self@.lists =~= old(self)@.lists);
        assert(self@.queued =~= old(self)@.queued);
    }

    /// Records that one segment has been written.
    pub fn record_downloaded(&mut self)
        requires
            old(self)@.downloaded < u64::MAX,
        ensures
            final(self)@ == (ManagerView { downloaded: old(self)@.downloaded + 1, ..old(self)@ }),
            final(self)@ == event_effect(old(self)@, ManagerEvent::Written),
    {
        self.downloaded = self.downloaded + 1;
        assert(self@.lists =~= old(self)@.lists);
        assert(self@.queued =~= old(self)@.queued);
    }

    /// Whether `url` is among the remembered URLs.
    fn is_queued(&self, url: &String) -> (r: bool)
        ensures
            r == self@.queued.contains(url@),
    {
        let mut i: usize = 0;
        while i < self.queued.len()
            invariant
                i <= self.queued@.len(),
                forall|j: int| 0 <= j < i ==> self.queued@[j]@ != url@,
            decreases self.queued.len() - i,
        {
            if self.queued[i] == *url {
                assert(self@.queued[i as int] == url@);
                return true;
            }
            i = i + 1;
        }
        proof {
            if self@.queued.contains(url@) {
                let j = choose|j: int| 0 <= j < self@.queued.len() && self@.queued[j] == url@;
                assert(self.queued@[j]@ == url@);
            }
        }
        false
    }

    /// Takes the segments of one listing of a playlist whose segments go to `output`:
    /// every segment whose URL is not remembered is remembered (the oldest URL is
    /// forgotten when `QUEUED_SIZE` are remembered), counted in the total, and
    /// returned, in listing order, as a download of `<time>_<duration>.ts` into `output`.
    pub fn admit_segments(&mut self, output: &str, entries: &Vec<SegmentEntry>) -> (r: Vec<DownloadMedia>)
        requires
            old(self).wf(),
            old(self)@.total + entries@.len() <= u64::MAX,
        ensures
            final(self).wf(),
            final(self)@.queued == admit_all(old(self)@.queued, entry_urls(entries@)).0,
            r@.len() == admit_all(old(self)@.queued, entry_urls(entries@)).1.len(),
            forall|k: int|
                #![trigger r@[k]]
                0 <= k < r@.len() ==> {
                    let e = entries@[admit_all(old(self)@.queued, entry_urls(entries@)).1[k]];
                    &&& r@[k]@.output == output@
                    &&& r@[k]@.url == e.url@
                    &&& r@[k]@.name == segment_file_name(e.time as int, e.duration@)
                },
            final(self)@.total == old(self)@.total + r@.len(),
            final(self)@.lists == old(self)@.lists,
            final(self)@.downloaded == old(self)@.downloaded,
            final(self)@.threads == old(self)@.threads,
            final(self)@.min_thread == old(self)@.min_thread,
            final(self)@.max_thread == old(self)@.max_thread,
            final(self)@ == event_effect(old(self)@, ManagerEvent::Listing { urls: entry_urls(entries@) }),
    {
        let ghost q0 = self@.queued;
        let ghost urls = entry_urls(entries@);
        let mut r: Vec<DownloadMedia> = Vec::new();
        let mut i: usize = 0;
        while i < entries.len()
            invariant
                q0 == old(self)@.queued,
                urls == entry_urls(entries@),
                i <= entries@.len(),
                self.wf(),
                self@.queued == admit_all(q0, urls.take(i as int)).0,
                r@.len() == admit_all(q0, urls.take(i as int)).1.len(),
                forall|k: int|
                    #![trigger r@[k]]
                    0 <= k < r@.len() ==> {
                        let e = entries@[admit_all(q0, urls.take(i as int)).1[k]];
                        &&& r@[k]@.output == output@
                        &&& r@[k]@.url == e.url@
                        &&& r@[k]@.name == segment_file_name(e.time as int, e.duration@)
                    },
                forall|k: int|
                    0 <= k < admit_all(q0, urls.take(i as int)).1.len() ==> 0 <= #[trigger] admit_all(
                        q0,
                        urls.take(i as int),
                    ).1[k] < i,
                self@.total == old(self)@.total + r@.len(),
                r@.len() <= i,
                old(self)@.total + entries@.len() <= u64::MAX,
                self@.lists == old(self)@.lists,
                self@.downloaded == old(self)@.downloaded,
                self@.threads == old(self)@.threads,
                self@.min_thread == old(self)@.min_thread,
                self@.max_thread == old(self)@.max_thread,
            decreases entries.len() - i,
        {
            let ghost prev = admit_all(q0, urls.take(i as int));
            proof {
                assert(urls.take(i + 1).drop_last() == urls.take(i as int));
                assert(urls.take(i + 1).last() == entries@[i as int].url@);
            }
            let url = &entries[i].url;
            if !self.is_queued(url) {
                let ghost before = self@;
                if self.queued.len() >= QUEUED_SIZE {
                    self.queued.remove(0);
                }
                self.queued.push(url.clone());
                proof {
                    assert(self@.queued =~= bounded_push(before.queued, url@));
                    lemma_bounded_push_wf(before.queued, url@);
                }
                let mut name = i64_text(entries[i].time);
                push_char(&mut name, '_');
                push_str(&mut name, &entries[i].duration);
                push_str(&mut name, ".ts");
                proof {
                    reveal_strlit(".ts");
                    assert(name@ =~= segment_file_name(entries@[i as int].time as int, entries@[i as int].duration@));
                }
                let ghost old_r = r@;
                r.push(DownloadMedia { output: output.to_string(), name, url: url.clone() });
                self.total = self.total + 1;
                proof {
                    let now = admit_all(q0, urls.take(i + 1));
                    assert(now.1 == prev.1.push(i as int));
                    assert forall|k: int| #![trigger r@[k]] 0 <= k < r@.len() implies {
                        let e = entries@[now.1[k]];
                        &&& r@[k]@.output == output@
                        &&& r@[k]@.url == e.url@
                        &&& r@[k]@.name == segment_file_name(e.time as int, e.duration@)
                    } by {
                        if k < old_r.len() {
                            assert(r@[k] == old_r[k]);
                        }
                    }
                }
            }
            assert(self@.lists =~= old(self)@.lists);
            i = i + 1;
        }
        assert(urls.take(entries@.len() as int) =~= urls);
        r
    }
}


/// The URLs that a listing has taken, in order.
pub open spec fn admitted_urls(q: Seq<Seq<char>>, urls: Seq<Seq<char>>) -> Seq<Seq<char>> {
    admit_all(q, urls).1.map_values(|i: int| urls[i])
}

/// The positions handed out as idle are exactly those of the playlists not being
/// fetched, in increasing order.
pub proof fn lemma_idle_positions_exact(lists: Seq<ListView>)
    ensures
        forall|k: int|
            0 <= k < idle_positions(lists).len() ==> 0 <= #[trigger] idle_positions(lists)[k]
                < lists.len() && !lists[idle_positions(lists)[k]].is_running,
        forall|k1: int, k2: int|
            0 <= k1 < k2 < idle_positions(lists).len() ==> #[trigger] idle_positions(lists)[k1]
                < #[trigger] idle_positions(lists)[k2],
        forall|i: int|
            0 <= i < lists.len() && !(#[trigger] lists[i]).is_running ==> idle_positions(
                lists,
            ).contains(i),
    decreases lists.len(),
{
    if lists.len() > 0 {
        let l = lists.drop_last();
        lemma_idle_positions_exact(l);
        let p = idle_positions(l);
        assert forall|i: int| 0 <= i < lists.len() && !(#[trigger] lists[i]).is_running implies idle_positions(
            lists,
        ).contains(i) by {
            if i < l.len() {
                assert(l[i] == lists[i]);
                let k = choose|k: int| 0 <= k < p.len() && p[k] == i;
                assert(idle_positions(lists)[k] == i);
            } else {
                assert(idle_positions(lists).last() == i);
            }
        }
        assert forall|k: int| 0 <= k < idle_positions(lists).len() implies 0 <= #[trigger] idle_positions(
            lists,
        )[k] < lists.len() && !lists[idle_positions(lists)[k]].is_running by {
            if k < p.len() {
                assert(idle_positions(lists)[k] == p[k]);
                assert(l[p[k]] == lists[p[k]]);
            }
        }
    }
}

/// Once the idle playlists have been handed out, none is handed out again: a
/// playlist is never fetched twice at the same time.
pub proof fn lemma_no_idle_after_take(lists: Seq<ListView>)
    ensures
        idle_positions(all_running(lists)) == Seq::<int>::empty(),
{
    lemma_idle_positions_exact(all_running(lists));
    let p = idle_positions(all_running(lists));
    if p.len() > 0 {
        assert(!all_running(lists)[p[0]].is_running);
    }
    assert(p =~= Seq::<int>::empty());
}

/// After a fetch ends, exactly that playlist is handed out by the next round.
pub proof fn lemma_finished_list_is_idle_again(lists: Seq<ListView>, index: int)
    requires
        0 <= index < lists.len(),
    ensures
        idle_positions(
            all_running(lists).update(index, ListView { is_running: false, ..all_running(lists)[index] }),
        ) == seq![index],
{
    let l2 = all_running(lists).update(index, ListView { is_running: false, ..all_running(lists)[index] });
    lemma_idle_positions_exact(l2);
    let p = idle_positions(l2);
    assert(!l2[index].is_running);
    assert(p.contains(index));
    assert forall|k: int| 0 <= k < p.len() implies p[k] == index by {
        if p[k] != index {
            assert(l2[p[k]] == all_running(lists)[p[k]]);
        }
    }
    if p.len() > 1 {
        assert(p[0] < p[1]);
    }
    assert(p =~= seq![index]);
}

proof fn lemma_bounded_push_last_n(s: Seq<Seq<char>>, u: Seq<char>)
    ensures
        bounded_push(last_n(s, QUEUED_SIZE as nat), u) == last_n(s.push(u), QUEUED_SIZE as nat),
{
    let n = QUEUED_SIZE as int;
    if s.len() < n {
    } else if s.len() == n {
        assert(s.drop_first().push(u) =~= s.push(u).skip(1));
    } else {
        assert(s.skip(s.len() - n).drop_first().push(u) =~= s.push(u).skip(s.len() + 1 - n));
    }
}

/// The queue after a listing keeps the `QUEUED_SIZE` most recent of the remembered
/// URLs followed by the newly taken ones, and the taken positions are increasing.
pub proof fn lemma_admit_closed_form(q: Seq<Seq<char>>, urls: Seq<Seq<char>>)
    requires
        q.len() <= QUEUED_SIZE,
    ensures
        admit_all(q, urls).0 == last_n(q + admitted_urls(q, urls), QUEUED_SIZE as nat),
        admit_all(q, urls).1.len() <= urls.len(),
        forall|k: int|
            0 <= k < admit_all(q, urls).1.len() ==> 0 <= #[trigger] admit_all(q, urls).1[k] < urls.len(),
        forall|k1: int, k2: int|
            0 <= k1 < k2 < admit_all(q, urls).1.len() ==> #[trigger] admit_all(q, urls).1[k1]
                < #[trigger] admit_all(q, urls).1[k2],
    decreases urls.len(),
{
    if urls.len() == 0 {
        assert(admitted_urls(q, urls) =~= Seq::<Seq<char>>::empty());
        assert(q + admitted_urls(q, urls) =~= q);
    } else {
        let us = urls.drop_last();
        lemma_admit_closed_form(q, us);
        let prev = admit_all(q, us);
        let a_prev = admitted_urls(q, us);
        if prev.0.contains(urls.last()) {
            assert(admitted_urls(q, urls) =~= a_prev) by {
                assert forall|k: int| 0 <= k < prev.1.len() implies urls[prev.1[k]] == us[prev.1[k]] by {
                }
            }
        } else {
            assert(admitted_urls(q, urls) =~= a_prev.push(urls.last())) by {
                assert forall|k: int| 0 <= k < prev.1.len() implies urls[prev.1[k]] == us[prev.1[k]] by {
                }
            }
            lemma_bounded_push_last_n(q + a_prev, urls.last());
            assert((q + a_prev).push(urls.last()) =~= q + a_prev.push(urls.last()));
        }
    }
}

/// Processing a listing keeps the queue distinct and bounded.
pub proof fn lemma_admit_keeps_queue_valid(q: Seq<Seq<char>>, urls: Seq<Seq<char>>)
    requires
        q.no_duplicates(),
        q.len() <= QUEUED_SIZE,
    ensures
        admit_all(q, urls).0.no_duplicates(),
        admit_all(q, urls).0.len() <= QUEUED_SIZE,
    decreases urls.len(),
{
    if urls.len() > 0 {
        lemma_admit_keeps_queue_valid(q, urls.drop_last());
        let prev = admit_all(q, urls.drop_last());
        if !prev.0.contains(urls.last()) {
            lemma_bounded_push_wf(prev.0, urls.last());
        }
    }
}

/// When the queue has room for a whole listing, each listed URL that was not
/// remembered is scheduled exactly once, none that was remembered is scheduled, and
/// afterwards every listed URL is remembered, the new ones after the old ones.
pub proof fn lemma_admit_without_overflow(q: Seq<Seq<char>>, urls: Seq<Seq<char>>)
    requires
        q.no_duplicates(),
        q.len() + urls.len() <= QUEUED_SIZE,
    ensures
        admit_all(q, urls).0 == q + admitted_urls(q, urls),
        admitted_urls(q, urls).no_duplicates(),
        forall|k: int| 0 <= k < admitted_urls(q, urls).len() ==> !q.contains(#[trigger] admitted_urls(q, urls)[k]),
        forall|i: int| 0 <= i < urls.len() ==> admit_all(q, urls).0.contains(#[trigger] urls[i]),
    decreases urls.len(),
{
    lemma_admit_closed_form(q, urls);
    lemma_admit_keeps_queue_valid(q, urls);
    let a = admitted_urls(q, urls);
    let fin = admit_all(q, urls).0;
    assert(fin == q + a);
    assert forall|k1: int, k2: int| 0 <= k1 < a.len() && 0 <= k2 < a.len() && k1 != k2 implies a[k1] != a[k2] by {
        assert(fin[q.len() + k1] == a[k1]);
        assert(fin[q.len() + k2] == a[k2]);
    }
    assert forall|k: int| 0 <= k < a.len() implies !q.contains(#[trigger] a[k]) by {
        if q.contains(a[k]) {
            let j = choose|j: int| 0 <= j < q.len() && q[j] == a[k];
            assert(fin[j] == fin[q.len() + k]);
        }
    }
    if urls.len() > 0 {
        let us = urls.drop_last();
        lemma_admit_without_overflow(q, us);
        let prev = admit_all(q, us);
        assert forall|i: int| 0 <= i < urls.len() implies fin.contains(#[trigger] urls[i]) by {
            if i < us.len() {
                assert(us[i] == urls[i]);
                assert(prev.0.contains(urls[i]));
                let j = choose|j: int| 0 <= j < prev.0.len() && prev.0[j] == urls[i];
                if !prev.0.contains(urls.last()) {
                    assert(fin == prev.0.push(urls.last()));
                    assert(fin[j] == urls[i]);
                }
            } else {
                if !prev.0.contains(urls.last()) {
                    assert(fin.last() == urls.last());
                }
            }
        }
    }
}

/// Remembering a URL that is not remembered keeps the queue distinct and bounded.
proof fn lemma_bounded_push_wf(q: Seq<Seq<char>>, url: Seq<char>)
    requires
        q.no_duplicates(),
        q.len() <= QUEUED_SIZE,
        !q.contains(url),
    ensures
        bounded_push(q, url).no_duplicates(),
        bounded_push(q, url).len() <= QUEUED_SIZE,
        bounded_push(q, url).contains(url),
{
    let r = bounded_push(q, url);
    assert(r.last() == url);
    let base = if q.len() >= QUEUED_SIZE { q.drop_first() } else { q };
    assert(r == base.push(url));
    assert forall|i: int, j: int| 0 <= i < r.len() && 0 <= j < r.len() && i != j implies r[i] != r[j] by {
        if i < base.len() && j < base.len() {
            if q.len() >= QUEUED_SIZE {
                assert(base[i] == q[i + 1] && base[j] == q[j + 1]);
            }
        } else if i < base.len() {
            if q.len() >= QUEUED_SIZE {
                assert(base[i] == q[i + 1]);
            }
            assert(q.contains(base[i]));
        } else if j < base.len() {
            if q.len() >= QUEUED_SIZE {
                assert(base[j] == q[j + 1]);
            }
            assert(q.contains(base[j]));
        }
    }
}

/// The directory that a newly followed channel's segments go to.
pub fn channel_output(output_dir: &str, stamp: &str, channel: &str, name: &str) -> (r: String)
    ensures
        r@ == channel_output_text(output_dir@, stamp@, channel@, name@),
{
    let mut r = String::new();
    push_str(&mut r, output_dir);
    push_char(&mut r, '/');
    push_str(&mut r, stamp);
    push_char(&mut r, '_');
    if name.is_empty() {
        push_str(&mut r, channel);
    } else {
        push_str(&mut r, name);
    }
    r
}

/// The file a downloaded segment is written to.
pub fn media_path(media: &DownloadMedia) -> (r: String)
    ensures
        r@ == media_path_text(media.output@, media.name@),
{
    let mut r = String::new();
    push_str(&mut r, &media.output);
    push_char(&mut r, '/');
    push_str(&mut r, &media.name);
    r
}

// ---------------------------------------------------------------------------
// The manager over a whole run: what its callers do to it, one event at a time.
// ---------------------------------------------------------------------------

/// One thing that happens to the manager, matching one of its methods.
pub enum ManagerEvent {
    /// A playlist starts being followed (`add_list`).
    Follow { output: Seq<char>, url: Seq<char> },
    /// The idle playlists are handed out to be fetched (`take_idle_lists`).
    TakeIdle,
    /// The fetch of the playlist at `index`, handed out earlier, ends (`finish_list`).
    ListDone { index: int },
    /// A listing with these segment URLs is processed (`admit_segments`).
    Listing { urls: Seq<Seq<char>> },
    /// `n` more segments are scheduled (`count_scheduled`).
    Counted { n: nat },
    /// A segment that was handed out is written (`record_downloaded`).
    Written,
    /// A worker thread counts itself in (`thread_started`).
    ThreadIn,
    /// A worker thread that counted itself in counts itself out (`thread_finished`).
    ThreadOut,
}

/// The manager's state with what is outstanding around it: the positions of the
/// playlist fetches under way, how many handed-out segments are not written yet, and
/// how many worker threads have counted themselves in and not out.
pub struct Ledger {
    pub state: ManagerView,
    pub fetching: Multiset<int>,
    pub unwritten: nat,
    pub alive: nat,
}

/// The manager as `Manager::new(min, max)` makes it, with nothing outstanding.
pub open spec fn initial_ledger(min: nat, max: nat) -> Ledger {
    Ledger {
        state: ManagerView {
            lists: Seq::empty(),
            queued: Seq::empty(),
            total: 0,
            downloaded: 0,
            threads: 0,
            min_thread: min,
            max_thread: max,
        },
        fetching: Multiset::empty(),
        unwritten: 0,
        alive: 0,
    }
}

/// What an event does to the manager's state: what the matching method's `ensures` says.
pub open spec fn event_effect(v: ManagerView, e: ManagerEvent) -> ManagerView {
    match e {
        ManagerEvent::Follow { output, url } => ManagerView {
            lists: v.lists.push(ListView { output, url, is_running: false }),
            ..v
        },
        ManagerEvent::TakeIdle => ManagerView { lists: all_running(v.lists), ..v },
        ManagerEvent::ListDone { index } => ManagerView {
            lists: v.lists.update(index, ListView { is_running: false, ..v.lists[index] }),
            ..v
        },
        ManagerEvent::Listing { urls } => ManagerView {
            queued: admit_all(v.queued, urls).0,
            total: v.total + admit_all(v.queued, urls).1.len(),
            ..v
        },
        ManagerEvent::Counted { n } => ManagerView { total: v.total + n, ..v },
        ManagerEvent::Written => ManagerView { downloaded: v.downloaded + 1, ..v },
        ManagerEvent::ThreadIn => ManagerView { threads: v.threads + 1, ..v },
        ManagerEvent::ThreadOut => ManagerView { threads: (v.threads - 1) as nat, ..v },
    }
}

/// How many segments an event schedules.
pub open spec fn event_scheduled(v: ManagerView, e: ManagerEvent) -> nat {
    match e {
        ManagerEvent::Listing { urls } => admit_all(v.queued, urls).1.len(),
        ManagerEvent::Counted { n } => n,
        _ => 0,
    }
}

/// Whether an event can happen now: the matching method's `requires`, a fetch ends only
/// when it was handed out, a segment is written only when one handed out is not
/// written yet, and a thread counts itself out only when one counted itself in.
pub open spec fn event_allowed(l: Ledger, e: ManagerEvent) -> bool {
    match e {
        ManagerEvent::Follow { .. } => true,
        ManagerEvent::TakeIdle => true,
        ManagerEvent::ListDone { index } => l.fetching.count(index) > 0,
        ManagerEvent::Listing { urls } => l.state.total + urls.len() <= u64::MAX,
        ManagerEvent::Counted { n } => l.state.total + n <= u64::MAX,
        ManagerEvent::Written => l.unwritten > 0 && l.state.downloaded < u64::MAX,
        ManagerEvent::ThreadIn => l.state.threads < u16::MAX,
        ManagerEvent::ThreadOut => l.alive > 0,
    }
}

/// The ledger after an event.
pub open spec fn ledger_step(l: Ledger, e: ManagerEvent) -> Ledger {
    Ledger {
        state: event_effect(l.state, e),
        fetching: match e {
            ManagerEvent::TakeIdle => l.fetching.add(idle_positions(l.state.lists).to_multiset()),
            ManagerEvent::ListDone { index } => l.fetching.remove(index),
            _ => l.fetching,
        },
        unwritten: match e {
            ManagerEvent::Written => (l.unwritten - 1) as nat,
            _ => l.unwritten + event_scheduled(l.state, e),
        },
        alive: match e {
            ManagerEvent::ThreadIn => l.alive + 1,
            ManagerEvent::ThreadOut => (l.alive - 1) as nat,
            _ => l.alive,
        },
    }
}

/// The ledger after a run of events.
pub open spec fn ledger_run(l: Ledger, es: Seq<ManagerEvent>) -> Ledger
    decreases es.len(),
{
    if es.len() == 0 {
        l
    } else {
        ledger_step(ledger_run(l, es.drop_last()), es.last())
    }
}

/// Every event of the run is allowed when it happens.
pub open spec fn run_allowed(l: Ledger, es: Seq<ManagerEvent>) -> bool
    decreases es.len(),
{
    if es.len() == 0 {
        true
    } else {
        run_allowed(l, es.drop_last()) && event_allowed(ledger_run(l, es.drop_last()), es.last())
    }
}

/// How many segments a run schedules.
pub open spec fn run_scheduled(l: Ledger, es: Seq<ManagerEvent>) -> nat
    decreases es.len(),
{
    if es.len() == 0 {
        0
    } else {
        run_scheduled(l, es.drop_last()) + event_scheduled(ledger_run(l, es.drop_last()).state, es.last())
    }
}

/// How many segments a run writes.
pub open spec fn run_written(es: Seq<ManagerEvent>) -> nat
    decreases es.len(),
{
    if es.len() == 0 {
        0
    } else {
        run_written(es.drop_last()) + (if es.last() is Written { 1nat } else { 0nat })
    }
}

/// What holds of the manager at every point of a run: its invariant; every scheduled
/// segment is written or outstanding; the thread counter is the number of threads
/// counted in and not out; a playlist is being fetched exactly once while it is marked
/// running, and never otherwise.
pub open spec fn ledger_ok(l: Ledger) -> bool {
    &&& Manager::wf_view(l.state)
    &&& l.state.total == l.state.downloaded + l.unwritten
    &&& l.state.threads == l.alive
    &&& forall|i: int|
        #[trigger] l.fetching.count(i) == (if 0 <= i < l.state.lists.len() && l.state.lists[i].is_running {
            1nat
        } else {
            0nat
        })
}

proof fn lemma_idle_positions_count(lists: Seq<ListView>, i: int)
    ensures
        idle_positions(lists).to_multiset().count(i) == (if 0 <= i < lists.len() && !lists[i].is_running {
            1nat
        } else {
            0nat
        }),
    decreases lists.len(),
{
    broadcast use vstd::seq_lib::group_to_multiset_ensures;
    broadcast use vstd::multiset::group_multiset_axioms;

    if lists.len() > 0 {
        let l = lists.drop_last();
        lemma_idle_positions_count(l, i);
        if 0 <= i < l.len() {
            assert(l[i] == lists[i]);
        }
        if !lists.last().is_running {
            assert(idle_positions(lists) == idle_positions(l).push(lists.len() - 1));
        }
    } else {
        assert(idle_positions(lists) =~= Seq::<int>::empty());
    }
}

proof fn lemma_step_keeps_ledger(l: Ledger, e: ManagerEvent)
    requires
        ledger_ok(l),
        event_allowed(l, e),
    ensures
        ledger_ok(ledger_step(l, e)),
{
    broadcast use vstd::multiset::group_multiset_axioms;

    let n = ledger_step(l, e);
    match e {
        ManagerEvent::Follow { output, url } => {
            assert forall|i: int| #[trigger] n.fetching.count(i) == (if 0 <= i < n.state.lists.len()
                && n.state.lists[i].is_running {
                1nat
            } else {
                0nat
            }) by {
                assert(l.fetching.count(i) == (if 0 <= i < l.state.lists.len() && l.state.lists[i].is_running {
                    1nat
                } else {
                    0nat
                }));
                if 0 <= i < l.state.lists.len() {
                    assert(n.state.lists[i] == l.state.lists[i]);
                }
            }
        },
        ManagerEvent::TakeIdle => {
            assert forall|i: int| #[trigger] n.fetching.count(i) == (if 0 <= i < n.state.lists.len()
                && n.state.lists[i].is_running {
                1nat
            } else {
                0nat
            }) by {
                lemma_idle_positions_count(l.state.lists, i);
                assert(l.fetching.count(i) == (if 0 <= i < l.state.lists.len() && l.state.lists[i].is_running {
                    1nat
                } else {
                    0nat
                }));
            }
        },
        ManagerEvent::ListDone { index } => {
            assert(l.fetching.count(index) == (if 0 <= index < l.state.lists.len()
                && l.state.lists[index].is_running {
                1nat
            } else {
                0nat
            }));
            assert forall|i: int| #[trigger] n.fetching.count(i) == (if 0 <= i < n.state.lists.len()
                && n.state.lists[i].is_running {
                1nat
            } else {
                0nat
            }) by {
                assert(l.fetching.count(i) == (if 0 <= i < l.state.lists.len() && l.state.lists[i].is_running {
                    1nat
                } else {
                    0nat
                }));
            }
        },
        ManagerEvent::Listing { urls } => {
            lemma_admit_keeps_queue_valid(l.state.queued, urls);
            assert forall|i: int| #[trigger] n.fetching.count(i) == (if 0 <= i < n.state.lists.len()
                && n.state.lists[i].is_running {
                1nat
            } else {
                0nat
            }) by {
                assert(l.fetching.count(i) == (if 0 <= i < l.state.lists.len() && l.state.lists[i].is_running {
                    1nat
                } else {
                    0nat
                }));
            }
        },
        _ => {
            assert forall|i: int| #[trigger] n.fetching.count(i) == (if 0 <= i < n.state.lists.len()
                && n.state.lists[i].is_running {
                1nat
            } else {
                0nat
            }) by {
                assert(l.fetching.count(i) == (if 0 <= i < l.state.lists.len() && l.state.lists[i].is_running {
                    1nat
                } else {
                    0nat
                }));
            }
        },
    }
}

/// The manager as made by `Manager::new` is in order, with nothing outstanding.
pub proof fn lemma_initial_ledger_ok(min: nat, max: nat)
    ensures
        ledger_ok(initial_ledger(min, max)),
{
    broadcast use vstd::multiset::group_multiset_axioms;

}

/// Whatever its callers do, within what each method allows, the manager stays in
/// order: its queue stays valid, the segments written never outnumber those scheduled
/// (every scheduled segment is written or still outstanding), the thread counter is
/// exactly the number of threads counted in and not out, and each followed playlist
/// has at most one fetch under way, exactly while it is marked running.
pub proof fn lemma_run_keeps_ledger(l: Ledger, es: Seq<ManagerEvent>)
    requires
        ledger_ok(l),
        run_allowed(l, es),
    ensures
        ledger_ok(ledger_run(l, es)),
        ledger_run(l, es).state.downloaded <= ledger_run(l, es).state.total,
        forall|i: int| #[trigger] ledger_run(l, es).fetching.count(i) <= 1,
    decreases es.len(),
{
    if es.len() > 0 {
        lemma_run_keeps_ledger(l, es.drop_last());
        lemma_step_keeps_ledger(ledger_run(l, es.drop_last()), es.last());
    }
    let r = ledger_run(l, es);
    assert forall|i: int| #[trigger] r.fetching.count(i) <= 1 by {
        assert(r.fetching.count(i) == (if 0 <= i < r.state.lists.len() && r.state.lists[i].is_running {
            1nat
        } else {
            0nat
        }));
    }
}

/// Between two observations of a run, the total grows by exactly the segments the
/// events between them scheduled and the written count by exactly the segments they
/// wrote; neither ever goes down.
pub proof fn lemma_counters_follow_events(l: Ledger, es: Seq<ManagerEvent>)
    ensures
        ledger_run(l, es).state.total == l.state.total + run_scheduled(l, es),
        ledger_run(l, es).state.downloaded == l.state.downloaded + run_written(es),
        l.state.total <= ledger_run(l, es).state.total,
        l.state.downloaded <= ledger_run(l, es).state.downloaded,
    decreases es.len(),
{
    if es.len() > 0 {
        lemma_counters_follow_events(l, es.drop_last());
    }
}

} // verus!
